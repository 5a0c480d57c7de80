//! Tests of reading `vcl.show` dumps.

use vcl_normalizer::vclshow::parse_chunks;

#[test]
fn test_no_cartouche_single_chunk() {
    let content = "hello world";
    let text = format!("// VCL.SHOW 0 {} test.vcl\n{}", content.len(), content);
    let chunks = parse_chunks(&text).expect("should parse");
    assert_eq!(chunks.len(), 1);
    assert_eq!(chunks[0].index, 0);
    assert_eq!(chunks[0].declared_len, content.len() as u32);
    assert_eq!(chunks[0].filename, "test.vcl");
    assert_eq!(chunks[0].content, content);
}

#[test]
fn test_cartouche_present() {
    let content = "hello world";
    let cartouche = "---\nItem 1: test\n---\n";
    let text = format!(
        "{}// VCL.SHOW 0 {} test.vcl\n{}",
        cartouche,
        content.len(),
        content
    );
    let chunks = parse_chunks(&text).expect("should parse");
    assert_eq!(chunks.len(), 1);
    assert_eq!(chunks[0].index, 0);
    assert_eq!(chunks[0].content, content);
}

#[test]
fn test_multiple_chunks() {
    let content1 = "first";
    let content2 = "second chunk";
    let content3 = "third";
    let text = format!(
        "// VCL.SHOW 0 {} file1.vcl\n{}\n// VCL.SHOW 1 {} file2.vcl\n{}\n// VCL.SHOW 2 {} file3.vcl\n{}",
        content1.len(),
        content1,
        content2.len(),
        content2,
        content3.len(),
        content3
    );
    let chunks = parse_chunks(&text).expect("should parse");
    assert_eq!(chunks.len(), 3);
    assert_eq!(chunks[0].index, 0);
    assert_eq!(chunks[0].content, content1);
    assert_eq!(chunks[1].index, 1);
    assert_eq!(chunks[1].content, content2);
    assert_eq!(chunks[2].index, 2);
    assert_eq!(chunks[2].content, content3);
}

#[test]
fn test_multiple_chunks_with_newlines() {
    let content1 = "first\nline\n";
    let content2 = "second\nchunk\nwith\nnewlines\n";
    let text = format!(
        "// VCL.SHOW 0 {} file1.vcl\n{}// VCL.SHOW 1 {} file2.vcl\n{}",
        content1.len(),
        content1,
        content2.len(),
        content2
    );
    let chunks = parse_chunks(&text).expect("should parse");
    assert_eq!(chunks.len(), 2);
    assert_eq!(chunks[0].content, content1);
    assert_eq!(chunks[0].content.len() as u32, chunks[0].declared_len);
    assert_eq!(chunks[1].content, content2);
    assert_eq!(chunks[1].content.len() as u32, chunks[1].declared_len);
}

#[test]
fn test_declared_length_mismatch() {
    let content = "hello";
    // Declare length as 10 but content is only 5 bytes
    let text = format!("// VCL.SHOW 0 10 test.vcl\n{}", content);
    let result = parse_chunks(&text);
    assert!(result.is_err());
    let err = result.unwrap_err();
    assert!(err.msg.contains("declared length 10") || err.msg.contains("extends past end"));
}

#[test]
fn test_index_gap() {
    let text = "// VCL.SHOW 0 2 file0.vcl\naa\n// VCL.SHOW 2 2 file2.vcl\nbb";
    let result = parse_chunks(text);
    assert!(result.is_err());
    let err = result.unwrap_err();
    assert!(err.msg.contains("expected 1"));
    assert!(err.msg.contains("got 2"));
}

#[test]
fn test_index_duplicate() {
    let text = "// VCL.SHOW 0 2 file0.vcl\naa\n// VCL.SHOW 0 2 file1.vcl\nbb";
    let result = parse_chunks(text);
    assert!(result.is_err());
    let err = result.unwrap_err();
    assert!(err.msg.contains("expected 1"));
    assert!(err.msg.contains("got 0"));
}

#[test]
fn test_no_marker_line() {
    let text = "this is not a vcl.show dump\nno markers here";
    let result = parse_chunks(text);
    assert!(result.is_err());
    let err = result.unwrap_err();
    assert!(err.msg.contains("no VCL.SHOW marker found"));
}

#[test]
fn test_empty_input() {
    let text = "";
    let result = parse_chunks(text);
    assert!(result.is_err());
    let err = result.unwrap_err();
    assert!(err.msg.contains("no VCL.SHOW chunks found"));
}

#[test]
fn test_filename_builtin() {
    let content = "builtin vcl";
    let text = format!("// VCL.SHOW 0 {} Builtin\n{}", content.len(), content);
    let chunks = parse_chunks(&text).expect("should parse");
    assert_eq!(chunks.len(), 1);
    assert_eq!(chunks[0].filename, "Builtin");
    assert_eq!(chunks[0].content, content);
}

#[test]
fn test_filename_with_spaces() {
    let content = "test content";
    let text = format!(
        "// VCL.SHOW 0 {} /path/to/file with spaces.vcl\n{}",
        content.len(),
        content
    );
    let chunks = parse_chunks(&text).expect("should parse");
    assert_eq!(chunks.len(), 1);
    assert_eq!(chunks[0].filename, "/path/to/file with spaces.vcl");
}

#[test]
fn test_cartouche_with_many_dashes() {
    let cartouche = &"-".repeat(100);
    let content = "test";
    let text = format!(
        "{}\nItem something\n{}\n// VCL.SHOW 0 {} file.vcl\n{}",
        cartouche,
        cartouche,
        content.len(),
        content
    );
    let chunks = parse_chunks(&text).expect("should parse");
    assert_eq!(chunks.len(), 1);
    assert_eq!(chunks[0].content, content);
}

#[test]
fn test_content_with_marker_like_text() {
    // Content that looks like a marker but isn't followed by space and index
    let content = "some code\n// VCL.SHOW not a marker";
    let text = format!("// VCL.SHOW 0 {} file.vcl\n{}", content.len(), content);
    let chunks = parse_chunks(&text).expect("should parse");
    assert_eq!(chunks.len(), 1);
    assert_eq!(chunks[0].content, content);
    // Verify the content length matches
    assert_eq!(chunks[0].declared_len as usize, chunks[0].content.len());
}

#[test]
fn test_content_with_carriage_returns() {
    let content = "line1\r\nline2\r\n";
    let text = format!("// VCL.SHOW 0 {} file.vcl\n{}", content.len(), content);
    let chunks = parse_chunks(&text).expect("should parse");
    assert_eq!(chunks.len(), 1);
    assert_eq!(chunks[0].content, content);
    assert_eq!(chunks[0].content.len() as u32, chunks[0].declared_len);
}

#[test]
fn test_all_three_chunks_in_sequence() {
    let c0 = "root vcl";
    let c1 = "included file 1";
    let c2 = "included file 2";
    let text = format!(
        "// VCL.SHOW 0 {} root.vcl\n{}\n// VCL.SHOW 1 {} child1.vcl\n{}\n// VCL.SHOW 2 {} child2.vcl\n{}",
        c0.len(),
        c0,
        c1.len(),
        c1,
        c2.len(),
        c2
    );
    let chunks = parse_chunks(&text).expect("should parse");
    assert_eq!(chunks.len(), 3);
    for chunk in &chunks {
        assert_eq!(chunk.declared_len as usize, chunk.content.len());
    }
}

use cattail::tail::{split_lines, TailScan};

fn scan_bytes(file: &[u8], lines: usize) -> Vec<String> {
    let mut scan = TailScan::new(file.len() as u64, lines);
    while let Some((start, size)) = scan.next_chunk() {
        let start = start as usize;
        scan.push_chunk(file[start..start + size].to_vec());
    }
    let offset = scan.offset() as usize;
    let prev = if offset > 0 { Some(file[offset - 1]) } else { None };
    scan.finish(prev)
}

#[test]
fn scan_extracts_last_n_lines() {
    let lines = scan_bytes(b"a\nb\nc\nd\n", 2);
    assert_eq!(lines, vec!["c".to_string(), "d".to_string()]);
}

#[test]
fn scan_includes_final_partial_line() {
    let lines = scan_bytes(b"a\nb\nc", 2);
    assert_eq!(lines, vec!["b".to_string(), "c".to_string()]);
}

#[test]
fn scan_of_short_file_gives_all_lines() {
    assert_eq!(scan_bytes(b"one\n", 50), vec!["one".to_string()]);
    assert!(scan_bytes(b"", 3).is_empty());
    assert!(scan_bytes(b"a\nb\n", 0).is_empty());
}

#[test]
fn scan_across_chunks_drops_partial_first_line() {
    let mut file = Vec::new();
    for i in 0..3000 {
        file.extend_from_slice(format!("line-{i:05}\n").as_bytes());
    }
    let lines = scan_bytes(&file, 3);
    assert_eq!(lines, vec!["line-02997".to_string(), "line-02998".to_string(), "line-02999".to_string()]);
    let many = scan_bytes(&file, 1000);
    assert_eq!(many.len(), 1000);
    assert_eq!(many[0], "line-02000");
    let long = vec![b'x'; 20000];
    let mut file = long.clone();
    file.extend_from_slice(b"\nend\n");
    let lines = scan_bytes(&file, 2);
    assert_eq!(lines.len(), 2);
    assert_eq!(lines[0].len(), 20000);
    assert_eq!(lines[1], "end");
}

#[test]
fn scan_reads_in_chunks_of_eight_kib() {
    let file = vec![b'y'; 20000];
    let mut scan = TailScan::new(20000, 1);
    assert_eq!(scan.next_chunk(), Some((20000 - 8192, 8192)));
    scan.push_chunk(file[20000 - 8192..].to_vec());
    assert_eq!(scan.next_chunk(), Some((20000 - 16384, 8192)));
    scan.push_chunk(file[20000 - 16384..20000 - 8192].to_vec());
    assert_eq!(scan.next_chunk(), Some((0, 20000 - 16384)));
    scan.push_chunk(file[..20000 - 16384].to_vec());
    assert_eq!(scan.next_chunk(), None);
    assert_eq!(scan.offset(), 0);
}

#[test]
fn split_lines_trims_carriage_returns_and_final_newline() {
    assert_eq!(
        split_lines(b"a\r\nb\n\nc\r\r", true),
        vec!["a".to_string(), "b".to_string(), String::new(), "c".to_string()]
    );
    assert!(split_lines(b"", true).is_empty());
    assert_eq!(split_lines(b"\n", false), vec![String::new()]);
    assert_eq!(split_lines(b"x\n\r", false), vec!["x".to_string(), String::new()]);
}

#[test]
fn split_lines_decodes_invalid_utf8_lossily() {
    assert_eq!(split_lines(&[0x61, 0xc3, 0x0a, 0xe2, 0x82, 0xac], true), vec!["a\u{FFFD}".to_string(), "\u{20AC}".to_string()]);
}

#[test]
fn scan_matches_whole_text_lines_for_utf8_files() {
    let mut text = String::new();
    for i in 0..2500 {
        text.push_str(&format!("é-{i}-ü\r\n"));
    }
    text.push_str("last без newline");
    let bytes = text.as_bytes();
    for n in [1usize, 2, 7, 700] {
        let got = scan_bytes(bytes, n);
        let all: Vec<String> = text
            .split_terminator('\n')
            .map(|l| l.trim_end_matches('\r').to_string())
            .collect();
        let want = all[all.len() - n..].to_vec();
        assert_eq!(got, want, "n = {n}");
    }
}

#[test]
fn scan_matches_split_lines_for_any_bytes() {
    let mut file = Vec::new();
    for i in 0..2500u32 {
        file.extend_from_slice(&[0xe2, 0x82, b'a' + (i % 26) as u8, 0xff, b'\r', b'\n']);
        if i % 7 == 0 {
            file.extend_from_slice(&[0xf0, 0x9f, b'\n']);
        }
    }
    file.extend_from_slice(&[0xc3]);
    let all = split_lines(&file, true);
    for n in [1usize, 2, 9, 900, 5000] {
        let got = scan_bytes(&file, n);
        let k = all.len().saturating_sub(n);
        assert_eq!(got, all[k..].to_vec(), "n = {n}");
    }
}

#[test]
fn split_lines_counts_one_line_per_newline_byte() {
    let bytes = [0xe2, 0x0a, 0x0a, 0x80, 0x0d, 0x0d, 0x0a, 0xff];
    let lines = split_lines(&bytes, true);
    assert_eq!(lines.len(), 4);
    assert_eq!(lines, vec!["\u{FFFD}".to_string(), String::new(), "\u{FFFD}".to_string(), "\u{FFFD}".to_string()]);
    assert_eq!(split_lines(&[0xe2, 0x82, 0x0a], true).len(), 1);
    assert_eq!(split_lines(b"a\nb", true).len(), 2);
}

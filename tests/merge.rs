use log_merge::merge::Merger;
use log_merge::output::header_lead;
use log_merge::source::{ReadStep, Source};

/// Runs the whole merge over in-memory streams, reading at most `chunk`
/// bytes at a time, and returns the output with each source's final capacity.
fn run_with(inputs: &[(&str, &[u8])], capacity: usize, chunk: usize) -> (Vec<u8>, Vec<usize>) {
    let sources: Vec<Source> = inputs
        .iter()
        .map(|(path, _)| Source::new(path.as_bytes().to_vec(), capacity))
        .collect();
    let mut m = Merger::new(sources);
    let mut at = vec![0usize; inputs.len()];
    let mut out = Vec::new();
    for s in 0..inputs.len() {
        refill(&mut m, s, inputs[s].1, &mut at[s], chunk);
    }
    while let Some(s) = m.merge_available() {
        flush(&m, &mut out);
        m.clear_batch();
        refill(&mut m, s, inputs[s].1, &mut at[s], chunk);
    }
    let caps = m.sources.iter().map(|s| s.buffer.len()).collect();
    (out, caps)
}

fn run(inputs: &[(&str, &[u8])]) -> Vec<u8> {
    run_with(inputs, log_merge::INITIAL_CAPACITY, usize::MAX).0
}

fn refill(m: &mut Merger, s: usize, content: &[u8], at: &mut usize, chunk: usize) {
    m.begin_refill(s);
    loop {
        let take = m.free_space(s).min(chunk).min(content.len() - *at);
        let bytes = &content[*at..*at + take];
        *at += take;
        match m.fill(s, bytes) {
            ReadStep::NeedMore => continue,
            ReadStep::Line(_) | ReadStep::Exhausted => break,
        }
    }
}

fn flush(m: &Merger, out: &mut Vec<u8>) {
    for e in &m.batch {
        let src = &m.sources[e.source];
        if e.header {
            out.extend_from_slice(&header_lead(e.first));
            out.extend_from_slice(&src.path);
            out.push(b'\n');
        }
        out.extend_from_slice(&src.buffer[e.start..e.start + e.len]);
    }
}

/// Splits the output into (header path, lines) runs.
fn runs(out: &[u8]) -> Vec<(Vec<u8>, Vec<Vec<u8>>)> {
    let mut result: Vec<(Vec<u8>, Vec<Vec<u8>>)> = Vec::new();
    let mut lines: Vec<&[u8]> = out.split_inclusive(|&b| b == b'\n').collect();
    lines.reverse();
    while let Some(line) = lines.pop() {
        if line == b"\n" && lines.last().map_or(false, |l| l.starts_with(b">>> ")) {
            continue;
        }
        if let Some(path) = line.strip_prefix(b">>> ") {
            result.push((path[..path.len() - 1].to_vec(), Vec::new()));
        } else {
            result.last_mut().unwrap().1.push(line.to_vec());
        }
    }
    result
}

#[test]
fn interleaves_by_byte_order_with_headers_on_switch() {
    let out = run(&[("a.log", b"apple\ncherry\n"), ("b.log", b"banana\n")]);
    assert_eq!(out, b">>> a.log\napple\n\n>>> b.log\nbanana\n\n>>> a.log\ncherry\n".to_vec());
}

#[test]
fn equal_lines_go_to_lower_index_first() {
    let out = run(&[("A", b"x\n"), ("B", b"x\n")]);
    assert_eq!(out, b">>> A\nx\n\n>>> B\nx\n".to_vec());
}

#[test]
fn equal_lines_prefer_the_source_printed_last() {
    let out = run(&[("A", b"b\nx\n"), ("B", b"a\nc\nx\n")]);
    assert_eq!(out, b">>> B\na\n\n>>> A\nb\n\n>>> B\nc\nx\n\n>>> A\nx\n".to_vec());
}

#[test]
fn unterminated_last_line_gets_a_delimiter() {
    let out = run(&[("f", b"only line")]);
    assert_eq!(out, b">>> f\nonly line\n".to_vec());
}

#[test]
fn empty_inputs_emit_nothing() {
    assert_eq!(run(&[("e1", b""), ("e2", b"")]), Vec::<u8>::new());
    assert_eq!(run(&[("e", b""), ("f", b"z\n")]), b">>> f\nz\n".to_vec());
}

#[test]
fn no_inputs_emit_nothing() {
    assert_eq!(run(&[]), Vec::<u8>::new());
}

#[test]
fn same_source_run_has_one_header() {
    let out = run(&[("a", b"1\n2\n3\n"), ("b", b"4\n5\n")]);
    assert_eq!(out, b">>> a\n1\n2\n3\n\n>>> b\n4\n5\n".to_vec());
}

#[test]
fn unsorted_input_keeps_its_own_order() {
    let out = run(&[("a", b"b\na\n"), ("c", b"c\n")]);
    assert_eq!(out, b">>> a\nb\na\n\n>>> c\nc\n".to_vec());
}

#[test]
fn prefix_sorts_first() {
    let out = run(&[("a", b"abc\n"), ("b", b"ab\n")]);
    assert_eq!(out, b">>> b\nab\n\n>>> a\nabc\n".to_vec());
}

#[test]
fn small_buffers_and_small_reads_give_the_same_output() {
    let inputs: [(&str, &[u8]); 3] = [
        ("one", b"alpha\ngamma is a much longer line than the buffer\nomega"),
        ("two", b"beta\ndelta\n"),
        ("three", b"\n\nzeta\n"),
    ];
    let expected = run(&inputs);
    for chunk in [1usize, 2, 3, 7] {
        let (out, _) = run_with(&inputs, 4, chunk);
        assert_eq!(out, expected);
    }
}

#[test]
fn output_bytes_are_the_input_bytes() {
    let inputs: [(&str, &[u8]); 3] = [("p", b"k\nb\nq"), ("r", b"a\nz\n"), ("s", b"m")];
    let out = run_with(&inputs, 4, 2).0;
    let mut emitted: Vec<u8> = runs(&out).into_iter().flat_map(|(_, ls)| ls.concat()).collect();
    let mut input: Vec<u8> = [&b"k\nb\nq\n"[..], b"a\nz\n", b"m\n"].concat();
    emitted.sort();
    input.sort();
    assert_eq!(emitted, input);
}

#[test]
fn each_source_keeps_its_line_order() {
    let inputs: [(&str, &[u8]); 2] = [("p", b"m\nb\nz\na\n"), ("q", b"c\nn\na\n")];
    let out = run_with(&inputs, 4, 1).0;
    let mut per: Vec<Vec<Vec<u8>>> = vec![Vec::new(), Vec::new()];
    for (path, lines) in runs(&out) {
        let i = if path == b"p" { 0 } else { 1 };
        per[i].extend(lines);
    }
    assert_eq!(per[0], vec![b"m\n".to_vec(), b"b\n".to_vec(), b"z\n".to_vec(), b"a\n".to_vec()]);
    assert_eq!(per[1], vec![b"c\n".to_vec(), b"n\n".to_vec(), b"a\n".to_vec()]);
}

#[test]
fn headers_only_where_the_source_changes() {
    let inputs: [(&str, &[u8]); 2] = [("p", b"a\nb\nd\n"), ("q", b"c\ne\nf\n")];
    let out = run(&inputs);
    let r = runs(&out);
    let paths: Vec<Vec<u8>> = r.iter().map(|(p, _)| p.clone()).collect();
    assert_eq!(paths, vec![b"p".to_vec(), b"q".to_vec(), b"p".to_vec(), b"q".to_vec()]);
    for w in paths.windows(2) {
        assert_ne!(w[0], w[1]);
    }
}

#[test]
fn many_short_lines_do_not_grow_the_buffer() {
    let content: Vec<u8> = b"ab\n".repeat(2000);
    let (out, caps) = run_with(&[("s", &content)], 16, 5);
    assert_eq!(caps, vec![16]);
    assert_eq!(out.len(), b">>> s\n".len() + content.len());
}

#[test]
fn buffer_grows_only_to_fit_the_longest_line() {
    let mut content = b"x\n".repeat(50);
    content.extend(vec![b'y'; 100]);
    content.push(b'\n');
    content.extend(b"z\n".repeat(50));
    let (out, caps) = run_with(&[("s", &content)], 16, 7);
    assert!(caps[0] >= 101);
    assert!(caps[0] <= 3 * 101);
    assert_eq!(&out[b">>> s\n".len()..], &content[..]);
}

use libgnl::get_next_line::{fd_accepted, index_of, to_c_line, BUF_SIZE};
use libgnl::reader::{fd_slot, nl_position, FdReaders, LineReader, ReadResult, Step, BUFFER_SIZE, MAX_FD};

const TEXT: &str = "The first line of the file\n\nshort\na line that is longer than one buffer of sixteen bytes\nno newline at the end";

/// Runs successive calls over a stream that the reads return in `chunks`,
/// then end of file, as get_next_line does, and collects the lines.
fn run(chunks: &[Vec<u8>]) -> Vec<Vec<u8>> {
    let mut reader = LineReader::new();
    let mut reads = chunks.iter();
    let mut lines = Vec::new();
    loop {
        let mut step = reader.next_step();
        let line = loop {
            match step {
                Step::Read => {
                    let ev = match reads.next() {
                        Some(c) => ReadResult::Bytes(c.clone()),
                        None => ReadResult::Eof,
                    };
                    step = reader.read_newln(ev);
                }
                Step::Line(l) => break Some(l),
                Step::End => break None,
            }
        };
        match line {
            Some(l) => lines.push(l),
            None => return lines,
        }
    }
}

fn chunked(bytes: &[u8], size: usize) -> Vec<Vec<u8>> {
    bytes.chunks(size).map(|c| c.to_vec()).collect()
}

/// The lines of a text read in reads of `BUF_SIZE` bytes join back to the
/// text; the reads are simulated, as tests cannot reach a file descriptor.
#[test]
fn get_next_line_gnl_basic() {
    let lines = run(&chunked(TEXT.as_bytes(), BUF_SIZE as usize));
    let mut my_str = String::new();
    for l in &lines {
        my_str.push_str(std::str::from_utf8(l).unwrap());
    }
    assert_eq!(TEXT, my_str);
    let expected: Vec<&str> = TEXT.split_inclusive('\n').collect();
    assert_eq!(lines.len(), expected.len());
    for (l, e) in lines.iter().zip(expected) {
        assert_eq!(l.as_slice(), e.as_bytes());
    }
}

/// The same with the per-descriptor read size, `BUFFER_SIZE`.
#[test]
fn test_gnl_gnl_basic() {
    let mut my_str = String::new();
    for l in run(&chunked(TEXT.as_bytes(), BUFFER_SIZE)) {
        my_str.push_str(std::str::from_utf8(&l).unwrap());
    }
    assert_eq!(TEXT, my_str);
}

#[test]
fn lines_do_not_depend_on_how_reads_cut_the_stream() {
    let whole = run(&[TEXT.as_bytes().to_vec()]);
    for size in 1..40 {
        assert_eq!(run(&chunked(TEXT.as_bytes(), size)), whole);
    }
}

#[test]
fn empty_stream_gives_no_line() {
    assert!(run(&[]).is_empty());
}

#[test]
fn blank_lines_are_lines() {
    let lines = run(&chunked(b"\n\nx\n", 16));
    assert_eq!(lines, vec![b"\n".to_vec(), b"\n".to_vec(), b"x\n".to_vec()]);
}

#[test]
fn buffer_keeps_bytes_after_the_line() {
    let mut r = LineReader::new();
    assert_eq!(r.next_step(), Step::Read);
    assert_eq!(r.read_newln(ReadResult::Bytes(b"ab\ncd\ne".to_vec())), Step::Line(b"ab\n".to_vec()));
    assert_eq!(r.pending(), b"cd\ne");
    assert_eq!(r.next_step(), Step::Line(b"cd\n".to_vec()));
    assert_eq!(r.pending(), b"e");
    assert_eq!(r.next_step(), Step::Read);
    assert_eq!(r.read_newln(ReadResult::Bytes(b"f".to_vec())), Step::Read);
    assert_eq!(r.pending(), b"ef");
    assert_eq!(r.read_newln(ReadResult::Eof), Step::Line(b"ef".to_vec()));
    assert_eq!(r.pending(), b"");
    assert_eq!(r.next_step(), Step::Read);
    assert_eq!(r.read_newln(ReadResult::Eof), Step::End);
}

#[test]
fn failed_read_clears_the_buffer() {
    let mut r = LineReader::new();
    assert_eq!(r.read_newln(ReadResult::Bytes(b"abc".to_vec())), Step::Read);
    assert_eq!(r.read_newln(ReadResult::Failed), Step::End);
    assert_eq!(r.pending(), b"");
}

#[test]
fn read_buffer_splits_at_the_newline() {
    let mut r = LineReader::new();
    assert_eq!(r.read_newln(ReadResult::Bytes(b"xyz".to_vec())), Step::Read);
    assert_eq!(r.read_newln(ReadResult::Bytes(b"\nq".to_vec())), Step::Line(b"xyz\n".to_vec()));
    let mut r = LineReader::new();
    r.read_newln(ReadResult::Bytes(b"ab".to_vec()));
    r.read_newln(ReadResult::Bytes(b"c".to_vec()));
    assert_eq!(r.read_buffer(1), b"ab".to_vec());
    assert_eq!(r.pending(), b"c");
}

#[test]
fn nl_position_finds_the_first_newline() {
    assert_eq!(nl_position(b"ab\ncd\n"), Some(2));
    assert_eq!(nl_position(b"\n"), Some(0));
    assert_eq!(nl_position(b"abc"), None);
    assert_eq!(nl_position(b""), None);
}

#[test]
fn nl_position_of_joined_buffers() {
    let pairs: [(&[u8], &[u8]); 5] = [(b"ab\nc", b"d\n"), (b"abc", b"d\ne"), (b"", b"\n"), (b"ab", b"cd"), (b"\n", b"")];
    for (a, b) in pairs {
        let joined = [a, b].concat();
        let expected = match nl_position(a) {
            Some(i) => Some(i),
            None => nl_position(b).map(|j| a.len() + j),
        };
        assert_eq!(nl_position(&joined), expected);
    }
}

#[test]
fn descriptors_have_separate_buffers() {
    let mut t = FdReaders::new();
    assert_eq!(t.read_newln(3, ReadResult::Bytes(b"a\nb".to_vec())), Step::Line(b"a\n".to_vec()));
    assert_eq!(t.read_newln(4, ReadResult::Bytes(b"c\nd".to_vec())), Step::Line(b"c\n".to_vec()));
    assert_eq!(t.next_step(3), Step::Read);
    assert_eq!(t.read_newln(3, ReadResult::Eof), Step::Line(b"b".to_vec()));
    assert_eq!(t.read_newln(4, ReadResult::Eof), Step::Line(b"d".to_vec()));
    assert_eq!(t.next_step(-1), Step::End);
    assert_eq!(t.next_step(MAX_FD), Step::End);
    assert_eq!(t.read_newln(MAX_FD, ReadResult::Bytes(b"\n".to_vec())), Step::End);
}

#[test]
fn descriptor_checks() {
    assert!(fd_accepted(0));
    assert!(fd_accepted(7));
    assert!(!fd_accepted(-1));
    assert_eq!(fd_slot(0), Some(0));
    assert_eq!(fd_slot(10239), Some(10239));
    assert_eq!(fd_slot(10240), None);
    assert_eq!(fd_slot(-5), None);
}

#[test]
fn index_of_stops_at_newline_only() {
    assert_eq!(index_of(b"abc\ndef\0", 100), 3);
    assert_eq!(index_of(b"ab\0c\n", 100), 4);
    assert_eq!(index_of(b"ab\0", 3), 3);
    assert_eq!(index_of(b"abcdef", 4), 4);
    assert_eq!(index_of(b"abcdef", -3), 0);
    assert_eq!(index_of(b"\nabc", 10), 0);
}

#[test]
fn kept_bytes_stay_shorter_than_a_read() {
    // Reads of at most BUF_SIZE bytes: after each call the buffer keeps fewer.
    let text = b"0123456789abcdefghij\nk\nlmnopqrstuvwxyz0123456789ABCDEF\nG";
    let n = BUF_SIZE as usize;
    let mut r = LineReader::new();
    let mut reads = text.chunks(n);
    loop {
        let mut step = r.next_step();
        loop {
            match step {
                Step::Read => {
                    let ev = match reads.next() {
                        Some(c) => ReadResult::Bytes(c.to_vec()),
                        None => ReadResult::Eof,
                    };
                    step = r.read_newln(ev);
                }
                _ => break,
            }
        }
        assert!(r.pending().len() < n);
        if step == Step::End {
            break;
        }
    }
}

#[test]
fn to_c_line_ends_with_nul() {
    assert_eq!(to_c_line(b"hello\n"), b"hello\n\0".to_vec());
    assert_eq!(to_c_line(b"he\0llo"), b"he\0".to_vec());
    assert_eq!(to_c_line(b""), b"\0".to_vec());
}

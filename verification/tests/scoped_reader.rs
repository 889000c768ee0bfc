use kapy_exif::scoped_reader::ReadWindow;

fn read_through(data: &[u8], offset: u64, length: u64, chunk: usize) -> Vec<u8> {
    let mut w = ReadWindow::new(offset, length);
    let mut out = Vec::new();
    loop {
        let n = w.next_read_len(chunk);
        if n == 0 {
            break;
        }
        let start = (w.offset() + w.position()) as usize;
        out.extend_from_slice(&data[start..start + n]);
        w.advance(n);
    }
    out
}

#[test]
fn scoped_reader() {
    let data = b"Hello, world!";
    assert_eq!(read_through(data, 7, 5, 5), b"world".to_vec());
}

#[test]
fn scoped_reader_large_content() {
    let data: Vec<u8> = (0..10 * 1024u32).map(|i| (i * 7 % 251) as u8).collect();
    let got = read_through(&data, 5 * 1024, 5 * 1024, 1000);
    assert_eq!(got, data[5 * 1024..10 * 1024].to_vec());
}

#[test]
fn read_window_limits_each_read() {
    let mut w = ReadWindow::new(3, 10);
    assert_eq!(w.next_read_len(4), 4);
    w.advance(4);
    assert_eq!(w.position(), 4);
    assert_eq!(w.next_read_len(100), 6);
    w.advance(6);
    assert_eq!(w.next_read_len(100), 0);
    assert_eq!(w.position(), 10);
}

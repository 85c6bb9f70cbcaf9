use fasthex::options::Options;
use fasthex::plain::{
    array_name, include_line, push_decimal, push_str, run_c_include_mmap, run_plain, ArrayStream,
};

fn text(bytes: Vec<u8>) -> String {
    String::from_utf8(bytes).unwrap()
}

fn streamed(name: &str, pieces: &[&[u8]]) -> String {
    let mut out = Vec::new();
    let mut s = ArrayStream::open(name, &mut out);
    for p in pieces {
        s.feed(p, false, &mut out);
    }
    s.close(name, &mut out);
    text(out)
}

#[test]
fn plain_digits() {
    assert_eq!(text(run_plain(&[0x00, 0xab, 0xff], false)), "00abff\n");
    assert_eq!(text(run_plain(&[0x00, 0xab, 0xff], true)), "00ABFF\n");
    assert_eq!(text(run_plain(&[], false)), "\n");
}

#[test]
fn names_of_c_arrays() {
    let mut opts = Options::default();
    assert_eq!(array_name(&opts), "data");
    opts.include_name = Some(String::from("table"));
    assert_eq!(array_name(&opts), "table");
}

#[test]
fn c_array_of_a_file() {
    assert_eq!(
        text(run_c_include_mmap("data", &[1, 2, 0xff], false)),
        "unsigned char data[] = {\n  0x01, 0x02, 0xff\n};\nunsigned int data_len = 3;\n"
    );
    assert_eq!(
        text(run_c_include_mmap("x", &[0xab; 13], true)),
        "unsigned char x[] = {\n  0xAB, 0xAB, 0xAB, 0xAB, 0xAB, 0xAB, 0xAB, 0xAB, 0xAB, 0xAB, 0xAB, 0xAB, \n  0xAB\n};\nunsigned int x_len = 13;\n"
    );
}

#[test]
fn c_array_of_a_stream() {
    assert_eq!(
        streamed("data", &[&[1, 2], &[0xff]]),
        "unsigned char data[] = {\n  0x01, 0x02, 0xff\n};\nunsigned int data_len = 3;\n"
    );
}

#[test]
fn c_arrays_agree() {
    for n in 1..40usize {
        let data: Vec<u8> = (0..n as u8).collect();
        let memory = text(run_c_include_mmap("d", &data, false));
        let stream = streamed("d", &[&data]);
        let parts: Vec<&[u8]> = data.chunks(5).collect();
        assert_eq!(streamed("d", &parts), stream);
        if n % 12 != 0 {
            assert_eq!(memory, stream);
        } else {
            assert_ne!(memory, stream);
        }
    }
}

#[test]
fn lines_of_a_c_array() {
    let mut out = Vec::new();
    include_line(&mut out, &[0x0a; 12], false);
    assert_eq!(text(out), format!("  {}", "0x0a, ".repeat(12)));
}

#[test]
fn texts_and_numbers() {
    let mut out = Vec::new();
    push_str(&mut out, "é_");
    push_decimal(&mut out, 0);
    push_decimal(&mut out, u64::MAX);
    assert_eq!(text(out), "é_018446744073709551615");
}

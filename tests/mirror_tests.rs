use lru_cache::mirror::{decode, encode};

fn pairs(items: &[(&str, &str)]) -> Vec<(String, String)> {
    items.iter().map(|(k, v)| (k.to_string(), v.to_string())).collect()
}

#[test]
fn encode_writes_one_line_per_record() {
    assert_eq!(encode(&pairs(&[("A", "data_A"), ("B", "data_B")])), "A=data_A\nB=data_B\n");
    assert_eq!(encode(&Vec::new()), "");
}

#[test]
fn decode_splits_at_first_separator() {
    assert_eq!(decode("k=a=b\n"), pairs(&[("k", "a=b")]));
    assert_eq!(decode("=v\nk=\n"), pairs(&[("", "v"), ("k", "")]));
}

#[test]
fn decode_skips_lines_without_separator() {
    assert_eq!(decode("A=1\nnothing\n\nB=2\n"), pairs(&[("A", "1"), ("B", "2")]));
}

#[test]
fn decode_reads_last_line_without_newline() {
    assert_eq!(decode("A=1\nB=2"), pairs(&[("A", "1"), ("B", "2")]));
    assert_eq!(decode(""), Vec::<(String, String)>::new());
}

#[test]
fn decode_of_encode_gives_records_back() {
    let recs = pairs(&[("clé", "valeur"), ("x", "a=b"), ("", "")]);
    assert_eq!(decode(&encode(&recs)), recs);
}

#[test]
fn decode_drops_carriage_return_at_line_end() {
    assert_eq!(decode("A=1\r\nB=2\r\n"), pairs(&[("A", "1"), ("B", "2")]));
    assert_eq!(decode("A=1\r\r\n"), pairs(&[("A", "1\r")]));
}

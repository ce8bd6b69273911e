use sonic_share::output::{candidate_name, decimal, partial_name};

#[test]
fn numbered_alternatives_keep_the_extension() {
    assert_eq!(candidate_name("data.bin", 1), "data-1.bin");
    assert_eq!(candidate_name("a.tar.gz", 10), "a.tar-10.gz");
    assert_eq!(candidate_name("noext", 3), "noext-3");
    assert_eq!(candidate_name(".bashrc", 2), ".bashrc-2");
    assert_eq!(candidate_name("dot.", 4), "dot-4.");
}

#[test]
fn partial_files_are_hidden_and_tagged_with_the_id() {
    assert_eq!(partial_name("data.bin", 1), ".data.bin.0000000000000001.partial");
}

#[test]
fn decimal_digits() {
    assert_eq!(decimal(0), vec!['0']);
    assert_eq!(decimal(4_294_967_295).into_iter().collect::<String>(), "4294967295");
}

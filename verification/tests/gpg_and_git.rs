use cert_store::git;
use cert_store::gpg::{
    decrypt, encrypt, key_rows, list_keys, parse_selection, recipients,
    recipients_commit_message, recipients_file, ListingError, RecipientsError, SelectionProblem,
};
use cert_store::number::NumberError;

const LISTING: &str = "tru::1:1700000000:0:3:1:5\n\
pub:u:255:22:ABCDEF0123456789:1700000000:::u:::scESC:::::ed25519:::0:\n\
fpr:::::::::0123456789ABCDEF0123456789ABCDEF01234567:\n\
uid:u::::1700000000::0A1B2C::Alice <alice@example.com>::::::::::0:\n\
sub:u:255:18:1111222233334444:1700000000::::::e:::::cv25519::\n\
fpr:::::::::AAAABBBBCCCCDDDDEEEEFFFF0000111122223333:\n\
pub:u:3072:1:0011223344556677:1600000000:::u:::scESC::::::23::0:\n\
uid:u::::1600000000::3C4D5E::Bob <bob@example.com>::::::::::0:\n\
uid:u::::1600000000::6F7081::Bob (work) <bob@work.example>::::::::::0:\n";

fn pairs(v: &[(&str, &str)]) -> Vec<(String, String)> {
    v.iter().map(|(a, b)| (a.to_string(), b.to_string())).collect()
}

#[test]
fn list_keys_pairs_each_key_with_its_first_user_id() {
    assert_eq!(
        list_keys(LISTING).unwrap(),
        pairs(&[
            ("ABCDEF0123456789", "Alice <alice@example.com>"),
            ("0011223344556677", "Bob <bob@example.com>"),
        ])
    );
}

#[test]
fn list_keys_of_empty_output() {
    assert_eq!(list_keys("").unwrap(), Vec::<(String, String)>::new());
}

#[test]
fn list_keys_skips_user_ids_without_key() {
    assert_eq!(list_keys("uid:u::::1::X::Nobody\n").unwrap(), Vec::<(String, String)>::new());
    assert_eq!(list_keys("uid:short\n").unwrap(), Vec::<(String, String)>::new());
}

#[test]
fn list_keys_refuses_missing_columns() {
    assert_eq!(list_keys("pub:u:255\n").unwrap_err(), ListingError::MissingColumn);
    assert_eq!(list_keys("pub:u:255:22:KEY\nuid:u:::\n").unwrap_err(), ListingError::MissingColumn);
}

#[test]
fn list_keys_round_trip_of_printed_records() {
    let keys = pairs(&[("K1", "User One"), ("", "Empty Key"), ("K3", "")]);
    let mut text = String::new();
    for (k, u) in &keys {
        text.push_str(&format!("pub::::{k}\nuid:::::::::{u}\n"));
    }
    assert_eq!(list_keys(&text).unwrap(), keys);
}

#[test]
fn selection_chooses_rows() {
    assert_eq!(parse_selection("1 2", 3).unwrap(), vec![0, 1]);
    assert_eq!(parse_selection("  2\t1 ", 3).unwrap(), vec![1, 0]);
    assert_eq!(parse_selection("", 3).unwrap(), Vec::<usize>::new());
    assert_eq!(parse_selection("+1", 2).unwrap(), vec![0]);
}

#[test]
fn selection_refusals() {
    let e = parse_selection("1 x 9", 3).unwrap_err();
    assert_eq!(e.word, "x");
    assert_eq!(e.problem, SelectionProblem::NotANumber(NumberError::InvalidDigit));
    let e = parse_selection("0", 3).unwrap_err();
    assert_eq!(e.word, "0");
    assert_eq!(e.problem, SelectionProblem::OutOfRange);
    // The last listed row cannot be chosen: row numbers must stay below the number of keys.
    let e = parse_selection("3", 3).unwrap_err();
    assert_eq!(e.problem, SelectionProblem::OutOfRange);
    let e = parse_selection("99999999999999999999999", 3).unwrap_err();
    assert_eq!(e.problem, SelectionProblem::NotANumber(NumberError::PosOverflow));
}

#[test]
fn selection_round_trip() {
    let indices = vec![3usize, 0, 2, 2];
    let answer = indices.iter().map(|i| (i + 1).to_string()).collect::<Vec<_>>().join(" ");
    assert_eq!(parse_selection(&answer, 5).unwrap(), indices);
}

#[test]
fn recipients_file_and_message() {
    let keys = pairs(&[("K1", "u1"), ("K2", "u2"), ("K3", "u3")]);
    let chosen = vec![1usize, 0];
    assert_eq!(recipients_file(&keys, &chosen), "K2\nK1\n");
    assert_eq!(recipients_commit_message(&keys, &chosen), "Added recipients: K2 (u2), K1 (u1)");
    assert_eq!(recipients_file(&keys, &vec![]), "");
    assert_eq!(recipients_commit_message(&keys, &vec![]), "Added recipients: ");
}

#[test]
fn recipients_read_back_what_was_written() {
    let keys = pairs(&[("AAAA", "a"), ("BBBB", "b"), ("CCCC", "c")]);
    let chosen = vec![2usize, 0];
    let contents = recipients_file(&keys, &chosen);
    assert_eq!(recipients(&contents), vec!["CCCC".to_string(), "AAAA".to_string()]);
}

#[test]
fn recipients_lines_are_trimmed() {
    assert_eq!(
        recipients("  K1 \r\nK2\n\n K3"),
        vec!["K1".to_string(), "K2".to_string(), "".to_string(), "K3".to_string()]
    );
}

#[test]
fn key_rows_number_keys_from_one() {
    let keys = pairs(&[("K1", "User One"), ("K2", "User Two")]);
    assert_eq!(
        key_rows(&keys).unwrap(),
        vec!["  1    K1    User One".to_string(), "  2    K2    User Two".to_string()]
    );
    assert_eq!(key_rows(&vec![]).unwrap_err(), RecipientsError::NoKeys);
}

#[test]
fn gpg_arguments() {
    let rs = vec!["K1".to_string(), "K2".to_string()];
    assert_eq!(
        encrypt("/store/cn/key.pem.gpg", &rs),
        vec![
            "--quiet",
            "--encrypt",
            "--output",
            "/store/cn/key.pem.gpg",
            "--recipient",
            "K1",
            "--recipient",
            "K2"
        ]
    );
    assert_eq!(decrypt("/store/cn/key.pem.gpg"), vec!["--quiet", "--decrypt", "/store/cn/key.pem.gpg"]);
}

#[test]
fn git_arguments() {
    assert_eq!(git::init("/store"), vec!["-C", "/store", "init"]);
    let files = vec!["/store/a".to_string(), "/store/b".to_string()];
    let steps = git::add_and_commit("/store", &files, "msg");
    assert_eq!(steps.stage, vec!["-C", "/store", "add", "/store/a", "/store/b"]);
    assert_eq!(steps.commit, vec!["-C", "/store", "commit", "-m", "msg"]);
    let steps = git::remove_and_commit("/store", &files, "gone");
    assert_eq!(steps.stage, vec!["-C", "/store", "rm", "/store/a", "/store/b"]);
    assert_eq!(steps.commit, vec!["-C", "/store", "commit", "-m", "gone"]);
}

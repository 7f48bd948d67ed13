use wordles::{dictionary_from_file, parse_dictionary};

#[test]
fn dictionary_reads_one_word_per_line() {
    assert_eq!(
        parse_dictionary("slate\ncrate\r\ntrace\n"),
        Ok(vec!["slate".to_string(), "crate".to_string(), "trace".to_string()])
    );
    assert_eq!(
        parse_dictionary("slate\ncrate"),
        Ok(vec!["slate".to_string(), "crate".to_string()])
    );
    assert_eq!(parse_dictionary(""), Ok(vec![]));
}

#[test]
fn dictionary_rejects_words_of_other_lengths() {
    assert_eq!(
        parse_dictionary("slate\ncrates\nab\n"),
        Err("Dictionary word must have five characters: crates".to_string())
    );
    assert_eq!(
        parse_dictionary("slate\n\ncrate\n"),
        Err("Dictionary word must have five characters: ".to_string())
    );
    assert_eq!(
        parse_dictionary("slate\r"),
        Err("Dictionary word must have five characters: slate\r".to_string())
    );
}

#[test]
fn dictionary_counts_characters_not_bytes() {
    assert_eq!(
        parse_dictionary("éclat\n"),
        Ok(vec!["éclat".to_string()])
    );
}

#[test]
fn dictionary_file_is_read_in_lower_case() {
    assert_eq!(
        dictionary_from_file("SLATE\nCrate\n"),
        Ok(vec!["slate".to_string(), "crate".to_string()])
    );
    assert_eq!(
        dictionary_from_file("ÉCLAT\n"),
        Ok(vec!["éclat".to_string()])
    );
}

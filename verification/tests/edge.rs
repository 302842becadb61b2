use rsname::cleaner::NameCleaner;

#[test]
fn empty_input_yields_bare_separator() {
    let cleaner = NameCleaner::new();
    assert_eq!(cleaner.clean(""), ".");
}

#[test]
fn input_without_extension_gets_trailing_separator() {
    let cleaner = NameCleaner::new();
    assert_eq!(cleaner.clean("Movie"), "Movie.");
    assert_eq!(cleaner.clean("Movie 1999"), "Movie (1999).");
}

#[test]
fn pure_noise_stem_yields_empty_title() {
    let cleaner = NameCleaner::new();
    assert_eq!(cleaner.clean("1080p.x264.mkv"), ".mkv");
}

#[test]
fn tag_padding_is_a_minimum_width_not_a_clamp() {
    let cleaner = NameCleaner::new();
    assert_eq!(cleaner.clean("Show.S01E100.mkv"), "Show - S01E100.mkv");
    assert_eq!(cleaner.clean("Show.S7E5.mkv"), "Show - S07E05.mkv");
    assert_eq!(cleaner.clean("Show.Cap.12345.mkv"), "Show - S123E45.mkv");
}

#[test]
fn unparsable_season_digits_fall_back_to_defaults() {
    let cleaner = NameCleaner::new();
    // The season digits overflow a u32, so the season falls back to 1.
    assert_eq!(cleaner.clean("Show.5000000000x02.mkv"), "Show - S01E02.mkv");
}

#[test]
fn rightmost_year_wins() {
    let cleaner = NameCleaner::new();
    assert_eq!(cleaner.clean("1930.1940.mkv"), "1930 (1940).mkv");
}

#[test]
fn episode_tag_takes_priority_over_year() {
    let cleaner = NameCleaner::new();
    assert_eq!(cleaner.clean("Show.2020.3x05.mkv"), "Show - S03E05.mkv");
}

#[test]
fn trailing_release_group_suffix_is_stripped() {
    let cleaner = NameCleaner::new();
    assert_eq!(cleaner.clean("Movie.1080p-GROUP.mkv"), "Movie.mkv");
}

#[test]
fn language_tokens_are_stripped() {
    let cleaner = NameCleaner::new();
    assert_eq!(cleaner.clean("Film.Subs.Multi.Dual.mkv"), "Film.mkv");
}

#[test]
fn unclosed_bracket_is_an_ordinary_character() {
    let cleaner = NameCleaner::new();
    assert_eq!(cleaner.clean("Movie [HD.mkv"), "Movie Hd.mkv");
}

#[test]
fn acronyms_are_recased_per_word() {
    let cleaner = NameCleaner::new();
    assert_eq!(cleaner.clean("NASA.Documentary.mkv"), "Nasa Documentary.mkv");
}

#[test]
fn cleaned_outputs_are_fixed_points() {
    let cleaner = NameCleaner::new();
    for name in [
        "Casablanca.mkv",
        "Pulp Fiction (1994).mp4",
        "Entrepreneurs - S01E10.mkv",
        "The Simpsons - S03E12.avi",
        "Www Descargaslocas Com Avatar 2 (2022).mkv",
    ] {
        let once = cleaner.clean(name);
        assert_eq!(cleaner.clean(&once), once);
        assert_eq!(once, name);
    }
}

#[test]
fn year_outside_range_is_not_selected() {
    let cleaner = NameCleaner::new();
    assert_eq!(cleaner.clean("Movie.1899.mkv"), "Movie 1899.mkv");
    assert_eq!(cleaner.clean("Movie.2100.mkv"), "Movie 2100.mkv");
    assert_eq!(cleaner.clean("Movie.1900.mkv"), "Movie (1900).mkv");
    assert_eq!(cleaner.clean("Movie.2099.mkv"), "Movie (2099).mkv");
}

#[test]
fn split_happens_at_the_final_separator() {
    let cleaner = NameCleaner::new();
    // The extension is the text after the last `.`; everything before it,
    // dots included, is title material.
    assert_eq!(cleaner.clean("foo.tar.gz"), "Foo Tar.gz");
    // A name that starts with its only `.` has an empty stem.
    assert_eq!(cleaner.clean(".bashrc"), ".bashrc");
}

#[test]
fn empty_title_still_renders_its_tag() {
    let cleaner = NameCleaner::new();
    assert_eq!(cleaner.clean("2012.mkv"), " (2012).mkv");
    assert_eq!(cleaner.clean("Cap.110.mkv"), " - S01E10.mkv");
}

#[test]
fn year_is_removed_once_at_its_rightmost_occurrence() {
    let cleaner = NameCleaner::new();
    // 1955 appears twice in the head: only the rightmost copy is removed.
    assert_eq!(cleaner.clean("1955.Story.1955.mkv"), "1955 Story (1955).mkv");
}

#[test]
fn accented_letters_are_word_characters() {
    let cleaner = NameCleaner::new();
    // í is alphanumeric and keeps its place in the word.
    assert_eq!(
        cleaner.clean("Pel\u{ed}cula.2022.1080p.mkv"),
        "Pel\u{ed}cula (2022).mkv"
    );
    // A leading lowercase é is uppercased by its Unicode mapping.
    assert_eq!(cleaner.clean("\u{e9}poca.Dorada.mkv"), "\u{c9}poca Dorada.mkv");
    // An uppercase accented letter inside a word is lowercased.
    assert_eq!(cleaner.clean("AM\u{c9}LIE.1080p.mkv"), "Am\u{e9}lie.mkv");
}

use fileslug::{
    join_words, preserve_version_dots, restore_version_dots, slug_filename_from_text,
    slug_from_text, slug_string_from_text, slug_words, slugify, slugify_string, split_extension,
    truncate_base, SlugifyOptions, Style, MAX_FILENAME_BYTES, MAX_SLUG_BYTES, VERSION_DOT,
};
use std::borrow::Cow;

fn kebab() -> SlugifyOptions {
    SlugifyOptions::default()
}

#[test]
fn default_options_are_kebab_ascii() {
    let opts = SlugifyOptions::default();
    assert_eq!(opts.style, Style::Kebab);
    assert!(!opts.keep_unicode);
}

#[test]
fn split_compound_extension_any_case() {
    assert_eq!(split_extension("Archive.TAR.GZ"), ("Archive", ".TAR.GZ"));
    assert_eq!(split_extension("x.Tar.Zst"), ("x", ".Tar.Zst"));
}

#[test]
fn split_name_that_is_a_compound_extension() {
    assert_eq!(split_extension(".tar.gz"), ("", ".tar.gz"));
}

#[test]
fn split_trailing_dot_and_dots_only() {
    assert_eq!(split_extension("a."), ("a", "."));
    assert_eq!(split_extension("..."), ("..", "."));
    assert_eq!(split_extension("."), ("", "."));
    assert_eq!(split_extension(""), ("", ""));
}

#[test]
fn split_rejoins_to_the_name() {
    for name in ["a.b.c", "résumé.pdf", ".env.local", "x.tar.bz2", "noext", "ünï.cödé"] {
        let (base, ext) = split_extension(name);
        assert_eq!(format!("{base}{ext}"), name);
    }
}

#[test]
fn preserve_then_restore_gives_text_back() {
    for text in ["app-1.2.3", "a.b.c", "7.txt", "2.10-2.12.26", "x..1", "1.2.", "é1.2é"] {
        assert_eq!(restore_version_dots(&preserve_version_dots(text)), text);
    }
}

#[test]
fn preserve_version_dots_edges() {
    assert_eq!(preserve_version_dots("1..2"), "1..2");
    assert_eq!(preserve_version_dots(".1.2."), ".1\x012.");
    assert_eq!(preserve_version_dots("é1.2"), "é1\x012");
    assert_eq!(preserve_version_dots(""), "");
}

#[test]
fn restore_turns_every_placeholder_into_a_dot() {
    let text = format!("a{VERSION_DOT}b{VERSION_DOT}");
    assert_eq!(restore_version_dots(&text), "a.b.");
}

#[test]
fn truncate_keeps_a_base_that_fits() {
    assert_eq!(truncate_base("abc", ".txt", 7), "abc");
}

#[test]
fn truncate_cuts_at_last_separator() {
    assert_eq!(truncate_base("ab-cd", "", 4), "ab");
    assert_eq!(truncate_base("ab_cd-ef", ".x", 8), "ab_cd");
}

#[test]
fn truncate_hard_cut_without_separator() {
    assert_eq!(truncate_base("abcdef", "", 4), "abcd");
    // A separator in first position is no cutting point.
    assert_eq!(truncate_base("-abc", "", 2), "-a");
}

#[test]
fn truncate_respects_character_boundaries() {
    // 'é' takes two bytes: three bytes leave room for one of them only.
    assert_eq!(truncate_base("éé", "", 3), "é");
}

#[test]
fn truncate_with_extension_longer_than_limit() {
    assert_eq!(truncate_base("abc", "toolong", 4), "");
}

#[test]
fn slug_words_lowercase_and_split() {
    let words = slug_words("Hello (World) v1.2", false);
    let expected = vec!["hello".to_string(), "world".to_string(), format!("v1{VERSION_DOT}2")];
    assert_eq!(words, expected);
}

#[test]
fn slug_words_ascii_mode_splits_on_non_ascii() {
    assert_eq!(slug_words("Café", false), vec!["caf".to_string()]);
    assert_eq!(slug_words("Café", true), vec!["café".to_string()]);
}

#[test]
fn join_words_in_each_style() {
    let words = vec!["my".to_string(), "file".to_string()];
    assert_eq!(join_words(&words, Style::Kebab, false), "my-file");
    assert_eq!(join_words(&words, Style::Snake, false), "my_file");
    assert_eq!(join_words(&words, Style::Pascal, false), "MyFile");
}

#[test]
fn slug_from_text_without_words() {
    assert_eq!(slug_from_text("@#$ !", &kebab()), None);
    assert_eq!(slug_from_text("Hi there", &kebab()), Some("hi-there".to_string()));
}

#[test]
fn slug_string_from_text_skips_transliteration() {
    // The text is taken as given: non-ASCII letters separate words.
    assert_eq!(slug_string_from_text("Café Menu", &kebab()), "caf-menu");
}

#[test]
fn slug_filename_from_text_adds_dot_and_extension() {
    assert_eq!(slug_filename_from_text("Env Local", true, ".bak", &kebab()), ".env-local.bak");
    assert_eq!(slug_filename_from_text("@@", false, ".txt", &kebab()), ".txt");
}

#[test]
fn slugify_transliterates_accents() {
    // Without transliteration the accented letters would split the words.
    assert_eq!(slugify_string("Crème Brûlée", &kebab()), "creme-brulee");
}

#[test]
fn slugify_keep_unicode_pascal_uppercases_first_letter() {
    let opts = SlugifyOptions { style: Style::Pascal, keep_unicode: true };
    assert_eq!(slugify_string("élan vital", &opts), "ÉlanVital");
}

#[test]
fn slugify_keep_unicode_splits_on_non_alphanumeric() {
    let opts = SlugifyOptions { keep_unicode: true, ..Default::default() };
    assert_eq!(slugify_string("naïve\u{2013}café", &opts), "naïve-café");
}

#[test]
fn slugify_string_separators_never_doubled_or_at_ends() {
    assert_eq!(slugify_string("  --Hello__World--  ", &kebab()), "hello-world");
    let snake = SlugifyOptions { style: Style::Snake, ..Default::default() };
    assert_eq!(slugify_string("__a - b__", &snake), "a_b");
}

#[test]
fn slugify_string_version_in_words() {
    assert_eq!(slugify_string("v1.2.3 release", &kebab()), "v1.2.3-release");
}

#[test]
fn slugify_string_ascii_output_is_shell_safe() {
    let out = slugify_string("$(rm -rf /) `x` | y > z ; \"q\" 'r' ~ & * ?", &kebab());
    assert!(out.chars().all(|c| c.is_ascii_lowercase() || c.is_ascii_digit() || c == '-' || c == '.'));
    assert_eq!(out, "rm-rf-x-y-z-q-r");
}

#[test]
fn slugify_string_length_limit_exact() {
    let input = "abc ".repeat(1000);
    let out = slugify_string(&input, &kebab());
    assert!(out.len() <= MAX_SLUG_BYTES);
    assert!(!out.ends_with('-'));
    // 256 words of "abc-" make 1024 bytes; the cut drops the trailing dash.
    assert_eq!(out.len(), 1023);
}

#[test]
fn slugify_borrows_for_dotfiles_and_empty() {
    assert!(matches!(slugify(".bashrc", &kebab()), Cow::Borrowed(".bashrc")));
    assert!(matches!(slugify("", &kebab()), Cow::Borrowed("")));
    assert!(matches!(slugify("a b.txt", &kebab()), Cow::Owned(_)));
}

#[test]
fn slugify_long_dotfile_is_kept_whole() {
    let name = format!(".{}", "a".repeat(300));
    let out = slugify(&name, &kebab());
    assert_eq!(out, name);
}

#[test]
fn slugify_extension_longer_than_limit() {
    let name = format!("base.{}", "e".repeat(300));
    let out = slugify(&name, &kebab());
    assert_eq!(out, format!(".{}", "e".repeat(300)));
}

#[test]
fn slugify_keeps_extension_unchanged() {
    assert_eq!(slugify("My File.$(x)", &kebab()), "my-file.$(x)");
    assert_eq!(slugify("Über Größe.TXT", &kebab()), "uber-grosse.TXT");
}

#[test]
fn slugify_length_limit_with_extension() {
    let name = format!("{}.txt", "word ".repeat(100));
    let out = slugify(&name, &kebab());
    assert!(out.len() <= MAX_FILENAME_BYTES);
    assert!(out.ends_with("word.txt"));
    // 50 words of "word-" are 250 bytes; the cut at the last dash leaves 249,
    // then the extension.
    assert_eq!(out.len(), 249 + 4);
}

#[test]
fn slugify_dotfile_with_extension_keeps_leading_dot() {
    assert_eq!(slugify(".My Config.json", &kebab()), ".my-config.json");
}

#[test]
fn slugify_pascal_filename() {
    let opts = SlugifyOptions { style: Style::Pascal, ..Default::default() };
    assert_eq!(slugify("release notes v2.0.md", &opts), "ReleaseNotesV2.0.md");
}

#[test]
fn slugify_borrows_an_already_clean_name() {
    assert!(matches!(slugify("already-clean.txt", &kebab()), Cow::Borrowed("already-clean.txt")));
    assert!(matches!(slugify("app-1.2.3.dmg", &kebab()), Cow::Borrowed("app-1.2.3.dmg")));
    assert!(matches!(slugify("Photo 2024_01.JPG", &kebab()), Cow::Owned(_)));
}

#[test]
fn slugify_string_again_gives_the_same_slug() {
    let snake = SlugifyOptions { style: Style::Snake, ..Default::default() };
    for input in ["My Blog Post Title!", "Café v1.2.3 (draft)", "  --x__y--  ", "@@@", "你好世界"] {
        for opts in [kebab(), snake.clone()] {
            let once = slugify_string(input, &opts);
            assert_eq!(slugify_string(&once, &opts), once);
        }
    }
}

#[test]
fn slug_string_of_ascii_text_needs_no_transliteration() {
    let text = "My Cool File";
    assert_eq!(slugify_string(text, &kebab()), slug_string_from_text(text, &kebab()));
}

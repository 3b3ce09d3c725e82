use trackmatch::matcher::{
    duration_agreement, levenshtein_distance, levenshtein_similarity_parts, normalize_lowered,
    normalize_string, token_overlap, DurationAgreement,
};

#[test]
fn test_normalization() {
    let raw = "Midnight City (Official Music Video) [HD]";
    assert_eq!(normalize_string(raw), "midnight city");
}

#[test]
fn test_similarity() {
    let s1 = normalize_string("M83 - Midnight City");
    let s2 = normalize_string("Midnight City by M83 (Audio)");
    let overlap = token_overlap(&s1, &s2);
    let similarity = overlap.shared as f64 / overlap.total as f64;
    assert!(similarity > 0.6);
}

#[test]
fn normalize_collapses_punctuation_and_spaces() {
    assert_eq!(normalize_string("  Hello,   World!!  "), "hello world");
    assert_eq!(normalize_string(""), "");
    assert_eq!(normalize_string("!!!"), "");
}

#[test]
fn normalize_removes_featuring_tags() {
    assert_eq!(normalize_string("Song Feat. Someone"), "song someone");
    assert_eq!(normalize_string("Track (Remastered 2011)"), "track 2011");
    assert_eq!(normalize_string("Live in 4K HQ"), "live in");
}

#[test]
fn normalize_keeps_words_containing_tags() {
    assert_eq!(normalize_string("After Dark"), "after dark");
    assert_eq!(normalize_string("Shadow"), "shadow");
    assert_eq!(normalize_string("hhdd"), "hhdd");
    assert_eq!(normalize_string("Featured Artist"), "featured artist");
    assert_eq!(normalize_string("Audiovisual"), "audiovisual");
    assert_eq!(normalize_string("Song (feat.X)"), "song x");
}

#[test]
fn normalize_is_not_idempotent() {
    let once = normalize_string("Official - Video");
    assert_eq!(once, "official video");
    assert_eq!(normalize_string(&once), "");
}

#[test]
fn normalize_lowered_keeps_case() {
    assert_eq!(normalize_lowered("ABC - Def"), "ABC Def");
}

#[test]
fn normalize_unicode() {
    assert_eq!(normalize_string("Beyoncé — Halo"), "beyoncé halo");
}

#[test]
fn levenshtein_known_values() {
    assert_eq!(levenshtein_distance("kitten", "sitting"), 3);
    assert_eq!(levenshtein_distance("", "abc"), 3);
    assert_eq!(levenshtein_distance("abc", ""), 3);
    assert_eq!(levenshtein_distance("", ""), 0);
    assert_eq!(levenshtein_distance("flaw", "lawn"), 2);
    assert_eq!(levenshtein_distance("café", "cafe"), 1);
}

#[test]
fn levenshtein_laws_on_examples() {
    let words = ["", "a", "ab", "abc", "bca", "kitten", "sitting", "sit"];
    for a in words.iter() {
        assert_eq!(levenshtein_distance(a, a), 0);
        for b in words.iter() {
            let d = levenshtein_distance(a, b);
            assert_eq!(d, levenshtein_distance(b, a));
            assert!(d <= a.chars().count().max(b.chars().count()));
            for c in words.iter() {
                assert!(levenshtein_distance(a, c) <= d + levenshtein_distance(b, c));
            }
        }
    }
}

#[test]
fn similarity_parts() {
    let p = levenshtein_similarity_parts("abc", "abd");
    assert_eq!(p.distance, 1);
    assert_eq!(p.longest, 3);
    let q = levenshtein_similarity_parts("", "");
    assert_eq!(q.distance, 0);
    assert_eq!(q.longest, 0);
}

#[test]
fn token_overlap_counts() {
    let o = token_overlap("a b c", "b c d");
    assert_eq!(o.shared, 2);
    assert_eq!(o.total, 4);
    let dup = token_overlap("a a b", "b b");
    assert_eq!(dup.shared, 1);
    assert_eq!(dup.total, 2);
    let none = token_overlap("", "   ");
    assert_eq!(none.shared, 0);
    assert_eq!(none.total, 0);
    let one = token_overlap("", "x y");
    assert_eq!(one.shared, 0);
    assert_eq!(one.total, 2);
    let same = token_overlap("x  y", "y x");
    assert_eq!(same.shared, same.total);
}

#[test]
fn duration_bands() {
    assert_eq!(duration_agreement(200, 203), DurationAgreement::WithinThree);
    assert_eq!(duration_agreement(203, 200), DurationAgreement::WithinThree);
    assert_eq!(duration_agreement(200, 208), DurationAgreement::WithinEight);
    assert_eq!(duration_agreement(200, 215), DurationAgreement::WithinFifteen);
    assert_eq!(duration_agreement(100, 116), DurationAgreement::Beyond);
    assert_eq!(duration_agreement(0, 100), DurationAgreement::Unknown);
    assert_eq!(duration_agreement(100, 0), DurationAgreement::Unknown);
}

#[test]
fn normalized_output_is_normal_form() {
    for raw in ["  A -- B  ", "x!!y", "Official Video", "M83 - Midnight City (Lyrics)", "\tTab\nNew"] {
        let n = normalize_string(raw);
        assert!(!n.starts_with(' ') && !n.ends_with(' '));
        assert!(!n.contains("  "));
        assert!(n.chars().all(|c| c == ' ' || c.is_alphanumeric()));
    }
}

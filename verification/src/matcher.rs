//! Fuzzy matching of track metadata: string normalisation, token overlap,
//! Levenshtein distance and the duration agreement bands.
use vstd::prelude::*;
use crate::text::{
    char_alphanumeric, char_is_alphanumeric, chars_of, collapse_whitespace, is_white_space,
    join_words, lowercase, remove_word_chars, str_lowercase, string_of, words, remove_words,
    all_ascii, ascii_lower, chars_equal, views, words_of, remove_words_from, word_at, occurs_at,
};

verus! {

// ---------------------------------------------------------------------------
// Levenshtein distance
// ---------------------------------------------------------------------------

/// The least of three numbers.
pub open spec fn min3(x: nat, y: nat, z: nat) -> nat {
    if x <= y && x <= z {
        x
    } else if y <= z {
        y
    } else {
        z
    }
}

/// The cost of putting character `x` where `y` stands: 0 if equal, else 1.
pub open spec fn substitution_cost(x: char, y: char) -> nat {
    if x == y {
        0
    } else {
        1
    }
}

/// The Levenshtein distance: the least number of single-character
/// insertions, deletions and substitutions that turn `a` into `b`.
pub open spec fn edit_distance(a: Seq<char>, b: Seq<char>) -> nat
    decreases a.len() + b.len(),
{
    if a.len() == 0 {
        b.len()
    } else if b.len() == 0 {
        a.len()
    } else {
        min3(
            edit_distance(a.drop_last(), b) + 1,
            edit_distance(a, b.drop_last()) + 1,
            edit_distance(a.drop_last(), b.drop_last()) + substitution_cost(a.last(), b.last()),
        )
    }
}

/// The larger of two lengths.
pub open spec fn max_len(a: Seq<char>, b: Seq<char>) -> nat {
    if a.len() >= b.len() {
        a.len()
    } else {
        b.len()
    }
}

/// The distance is at most the length of the longer string, so the
/// normalised similarity `1 - distance / max_len` lies in `[0, 1]`.
pub proof fn lemma_edit_distance_at_most_max_len(a: Seq<char>, b: Seq<char>)
    ensures
        edit_distance(a, b) <= max_len(a, b),
    decreases a.len() + b.len(),
{
    if a.len() > 0 && b.len() > 0 {
        lemma_edit_distance_at_most_max_len(a.drop_last(), b.drop_last());
    }
}

/// The distance is at least the difference of the lengths.
pub proof fn lemma_edit_distance_at_least_len_difference(a: Seq<char>, b: Seq<char>)
    ensures
        edit_distance(a, b) >= a.len() - b.len(),
        edit_distance(a, b) >= b.len() - a.len(),
    decreases a.len() + b.len(),
{
    if a.len() > 0 && b.len() > 0 {
        lemma_edit_distance_at_least_len_difference(a.drop_last(), b);
        lemma_edit_distance_at_least_len_difference(a, b.drop_last());
        lemma_edit_distance_at_least_len_difference(a.drop_last(), b.drop_last());
    }
}

/// A string is at distance 0 from itself.
pub proof fn lemma_edit_distance_to_self(a: Seq<char>)
    ensures
        edit_distance(a, a) == 0,
    decreases a.len(),
{
    if a.len() > 0 {
        lemma_edit_distance_to_self(a.drop_last());
    }
}

/// Distance 0 holds only between equal strings.
pub proof fn lemma_edit_distance_zero_only_if_equal(a: Seq<char>, b: Seq<char>)
    requires
        edit_distance(a, b) == 0,
    ensures
        a == b,
    decreases a.len() + b.len(),
{
    if a.len() == 0 {
        assert(b =~= a);
    } else if b.len() == 0 {
    } else {
        lemma_edit_distance_zero_only_if_equal(a.drop_last(), b.drop_last());
        assert(a =~= a.drop_last().push(a.last()));
        assert(b =~= b.drop_last().push(b.last()));
    }
}

/// The distance does not depend on the order of its arguments.
pub proof fn lemma_edit_distance_symmetric(a: Seq<char>, b: Seq<char>)
    ensures
        edit_distance(a, b) == edit_distance(b, a),
    decreases a.len() + b.len(),
{
    if a.len() > 0 && b.len() > 0 {
        lemma_edit_distance_symmetric(a.drop_last(), b);
        lemma_edit_distance_symmetric(a, b.drop_last());
        lemma_edit_distance_symmetric(a.drop_last(), b.drop_last());
    }
}

/// The triangle inequality: going through `b` is never shorter.
pub proof fn lemma_edit_distance_triangle(a: Seq<char>, b: Seq<char>, c: Seq<char>)
    ensures
        edit_distance(a, c) <= edit_distance(a, b) + edit_distance(b, c),
    decreases a.len() + b.len() + c.len(),
{
    if a.len() == 0 {
        lemma_edit_distance_at_least_len_difference(b, c);
    } else if c.len() == 0 {
        lemma_edit_distance_at_least_len_difference(a, b);
    } else if b.len() == 0 {
        lemma_edit_distance_at_most_max_len(a, c);
    } else {
        let a1 = a.drop_last();
        let b1 = b.drop_last();
        let c1 = c.drop_last();
        lemma_edit_distance_triangle(a1, b, c);
        lemma_edit_distance_triangle(a, b, c1);
        lemma_edit_distance_triangle(a, b1, c);
        lemma_edit_distance_triangle(a, b1, c1);
        lemma_edit_distance_triangle(a1, b1, c);
        lemma_edit_distance_triangle(a1, b1, c1);
        assert(edit_distance(a, c) <= edit_distance(a1, c) + 1);
        assert(edit_distance(a, c) <= edit_distance(a, c1) + 1);
        assert(edit_distance(a, c) <= edit_distance(a1, c1) + substitution_cost(a.last(), c.last()));
    }
}

/// One row of the table: `row[k] == edit_distance(a, b.take(k))` for every `k`.
pub open spec fn row_holds(row: Seq<usize>, a: Seq<char>, b: Seq<char>) -> bool {
    &&& row.len() == b.len() + 1
    &&& forall|k: int| 0 <= k <= b.len() ==> #[trigger] row[k] == edit_distance(a, b.take(k))
}

/// The Levenshtein distance between `v1` and `v2`, by the one-row table.
fn edit_distance_chars(v1: &Vec<char>, v2: &Vec<char>) -> (r: usize)
    requires
        v1.len() < usize::MAX,
        v2.len() < usize::MAX,
    ensures
        r == edit_distance(v1@, v2@),
{
    let len1 = v1.len();
    let len2 = v2.len();
    if len1 == 0 {
        return len2;
    }
    if len2 == 0 {
        return len1;
    }
    let mut row: Vec<usize> = Vec::new();
    let mut k: usize = 0;
    while k <= len2
        invariant
            len2 == v2@.len(),
            len2 < usize::MAX,
            k <= len2 + 1,
            row@.len() == k,
            forall|m: int| 0 <= m < k ==> #[trigger] row@[m] == m,
        decreases len2 + 1 - k,
    {
        row.push(k);
        k = k + 1;
    }
    assert(row_holds(row@, v1@.take(0), v2@)) by {
        assert forall|m: int| 0 <= m <= len2 implies #[trigger] row@[m] == edit_distance(
            v1@.take(0),
            v2@.take(m),
        ) by {
            assert(v1@.take(0).len() == 0);
        }
    }
    let mut i: usize = 0;
    while i < len1
        invariant
            len1 == v1@.len(),
            len2 == v2@.len(),
            len1 < usize::MAX,
            len2 < usize::MAX,
            i <= len1,
            row_holds(row@, v1@.take(i as int), v2@),
        decreases len1 - i,
    {
        let ghost a = v1@.take(i as int);
        let ghost a1 = v1@.take(i + 1);
        assert(a1.drop_last() =~= a);
        assert(a1.last() == v1@[i as int]);
        let c1 = v1[i];
        let mut prev_diag: usize = row[0];
        row.set(0, i + 1);
        assert(v2@.take(0).len() == 0);
        let mut j: usize = 0;
        while j < len2
            invariant
                len1 == v1@.len(),
                len2 == v2@.len(),
                len1 < usize::MAX,
                len2 < usize::MAX,
                i < len1,
                j <= len2,
                a == v1@.take(i as int),
                a1 == v1@.take(i + 1),
                a1.drop_last() == a,
                a1.last() == c1,
                row@.len() == len2 + 1,
                forall|k: int| 0 <= k <= j ==> #[trigger] row@[k] == edit_distance(a1, v2@.take(k)),
                forall|k: int| j < k <= len2 ==> #[trigger] row@[k] == edit_distance(a, v2@.take(k)),
                prev_diag == edit_distance(a, v2@.take(j as int)),
            decreases len2 - j,
        {
            let ghost b = v2@.take(j as int);
            let ghost b1 = v2@.take(j + 1);
            assert(b1.drop_last() =~= b);
            assert(b1.last() == v2@[j as int]);
            proof {
                lemma_edit_distance_at_most_max_len(a, b1);
                lemma_edit_distance_at_most_max_len(a1, b);
                lemma_edit_distance_at_most_max_len(a, b);
            }
            let old_row_j = row[j + 1];
            let cost: usize = if c1 == v2[j] {
                0
            } else {
                1
            };
            let left = row[j] + 1;
            let up = row[j + 1] + 1;
            let diag = prev_diag + cost;
            let mut current = if left < up {
                left
            } else {
                up
            };
            if diag < current {
                current = diag;
            }
            assert(current == edit_distance(a1, b1));
            prev_diag = old_row_j;
            row.set(j + 1, current);
            j = j + 1;
        }
        i = i + 1;
    }
    assert(v1@.take(len1 as int) =~= v1@);
    assert(v2@.take(len2 as int) =~= v2@);
    row[len2]
}

/// The Levenshtein distance between `s1` and `s2`, counted in characters.
pub fn levenshtein_distance(s1: &str, s2: &str) -> (r: usize)
    requires
        s1@.len() < usize::MAX,
        s2@.len() < usize::MAX,
    ensures
        r == edit_distance(s1@, s2@),
{
    let v1 = crate::text::chars_of(s1);
    let v2 = crate::text::chars_of(s2);
    edit_distance_chars(&v1, &v2)
}


// ---------------------------------------------------------------------------
// Normalisation
// ---------------------------------------------------------------------------

/// The noise tags removed from titles, in the order they are removed.
pub open spec fn noise_patterns() -> Seq<Seq<char>> {
    seq![
        "official video"@,
        "official audio"@,
        "official music video"@,
        "lyric video"@,
        "lyrics"@,
        "audio"@,
        "remastered"@,
        "remaster"@,
        "hd"@,
        "hq"@,
        "4k"@,
        "feat."@,
        "feat"@,
        "ft."@,
        "ft"@,
    ]
}

/// The number of noise tags.
pub const NOISE_PATTERN_COUNT: usize = 15;

/// The `i`-th noise tag.
fn noise_pattern(i: usize) -> (r: &'static str)
    requires
        i < NOISE_PATTERN_COUNT,
    ensures
        r@ == noise_patterns()[i as int],
{
    match i {
        0 => "official video",
        1 => "official audio",
        2 => "official music video",
        3 => "lyric video",
        4 => "lyrics",
        5 => "audio",
        6 => "remastered",
        7 => "remaster",
        8 => "hd",
        9 => "hq",
        10 => "4k",
        11 => "feat.",
        12 => "feat",
        13 => "ft.",
        _ => "ft",
    }
}

/// `s` after removing every whole-word occurrence of the first `k` noise
/// tags, one tag after the other.
pub open spec fn strip_noise(s: Seq<char>, k: nat) -> Seq<char>
    decreases k,
{
    if k == 0 {
        s
    } else {
        remove_words(strip_noise(s, (k - 1) as nat), noise_patterns()[k - 1])
    }
}

/// Alphanumeric characters and spaces stay; every other character becomes a space.
pub open spec fn clean_char(c: char) -> char {
    if char_is_alphanumeric(c) || c == ' ' {
        c
    } else {
        ' '
    }
}

/// The normal form of an already lowercased string: noise tags removed as
/// whole words, punctuation turned into spaces, words joined by single spaces.
pub open spec fn normalized(lower: Seq<char>) -> Seq<char> {
    join_words(
        words(strip_noise(lower, 15).map_values(|c: char| clean_char(c))),
    )
}

/// The maximal runs of alphanumeric characters of `s`, in order.
pub open spec fn alphanumeric_runs(s: Seq<char>) -> Seq<Seq<char>>
    decreases s.len(),
{
    if s.len() == 0 {
        Seq::<Seq<char>>::empty()
    } else {
        let prev = alphanumeric_runs(s.drop_last());
        let c = s.last();
        if !char_is_alphanumeric(c) {
            prev
        } else if s.len() >= 2 && char_is_alphanumeric(s[s.len() - 2]) {
            prev.update(prev.len() - 1, prev.last().push(c))
        } else {
            prev.push(seq![c])
        }
    }
}

/// When no alphanumeric character of `s` is white space, the words of the
/// cleaned string are the alphanumeric runs of `s`.
proof fn lemma_clean_runs(s: Seq<char>)
    requires
        forall|i: int| 0 <= i < s.len() && char_is_alphanumeric(#[trigger] s[i]) ==> !is_white_space(s[i]),
    ensures
        words(s.map_values(|c: char| clean_char(c))) == alphanumeric_runs(s),
    decreases s.len(),
{
    if s.len() > 0 {
        let p = s.drop_last();
        let m = s.map_values(|c: char| clean_char(c));
        assert forall|i: int| 0 <= i < p.len() && char_is_alphanumeric(#[trigger] p[i]) implies !is_white_space(p[i]) by {
            assert(p[i] == s[i]);
        }
        lemma_clean_runs(p);
        assert(m.drop_last() =~= p.map_values(|c: char| clean_char(c)));
        let c = s.last();
        assert(s[s.len() - 1] == c);
        assert(m.last() == clean_char(c));
        if s.len() >= 2 {
            assert(m[s.len() - 2] == clean_char(s[s.len() - 2]));
        }
    }
}

/// Only alphanumeric characters and single spaces between them: no space
/// at either end and no two spaces in a row.
pub open spec fn is_normal_form(s: Seq<char>) -> bool {
    &&& forall|i: int| 0 <= i < s.len() ==> s[i] == ' ' || char_is_alphanumeric(#[trigger] s[i])
    &&& s.len() > 0 ==> s[0] != ' ' && s.last() != ' '
    &&& forall|i: int| 0 <= i < s.len() - 1 ==> !(#[trigger] s[i] == ' ' && s[i + 1] == ' ')
}

/// When every non-white-space character of `s` is alphanumeric, every word
/// of `s` is non-empty and made of alphanumeric, non-white-space characters.
proof fn lemma_words_alphanumeric(s: Seq<char>)
    requires
        forall|i: int| 0 <= i < s.len() && !is_white_space(s[i]) ==> char_is_alphanumeric(#[trigger] s[i]),
    ensures
        forall|k: int| 0 <= k < words(s).len() ==> (#[trigger] words(s)[k]).len() > 0,
        forall|k: int, j: int|
            0 <= k < words(s).len() && 0 <= j < words(s)[k].len() ==> char_is_alphanumeric(
                #[trigger] words(s)[k][j],
            ) && !is_white_space(words(s)[k][j]),
        s.len() > 0 && !is_white_space(s.last()) ==> words(s).len() > 0,
    decreases s.len(),
{
    if s.len() > 0 {
        let p = s.drop_last();
        assert forall|i: int| 0 <= i < p.len() && !is_white_space(p[i]) implies char_is_alphanumeric(
            #[trigger] p[i],
        ) by {
            assert(p[i] == s[i]);
        }
        lemma_words_alphanumeric(p);
        let c = s.last();
        assert(s[s.len() - 1] == c);
        if !is_white_space(c) && s.len() >= 2 && !is_white_space(s[s.len() - 2]) {
            assert(p.last() == s[s.len() - 2]);
            let w = words(p);
            let w2 = w.update(w.len() - 1, w.last().push(c));
            assert forall|k: int, j: int|
                0 <= k < w2.len() && 0 <= j < w2[k].len() implies char_is_alphanumeric(
                #[trigger] w2[k][j],
            ) && !is_white_space(w2[k][j]) by {
                if k == w.len() - 1 && j == w.last().len() {
                } else if k == w.len() - 1 {
                    assert(w2[k][j] == w[k][j]);
                } else {
                    assert(w2[k] == w[k]);
                }
            }
        } else if !is_white_space(c) {
            let w = words(p);
            let w2 = w.push(seq![c]);
            assert forall|k: int, j: int|
                0 <= k < w2.len() && 0 <= j < w2[k].len() implies char_is_alphanumeric(
                #[trigger] w2[k][j],
            ) && !is_white_space(w2[k][j]) by {
                if k < w.len() {
                    assert(w2[k] == w[k]);
                }
            }
        }
    }
}

/// Joining non-empty words of alphanumeric, non-space characters gives a
/// string in normal form.
proof fn lemma_join_normal_form(ws: Seq<Seq<char>>)
    requires
        forall|k: int| 0 <= k < ws.len() ==> (#[trigger] ws[k]).len() > 0,
        forall|k: int, j: int|
            0 <= k < ws.len() && 0 <= j < ws[k].len() ==> char_is_alphanumeric(#[trigger] ws[k][j])
                && ws[k][j] != ' ',
    ensures
        is_normal_form(join_words(ws)),
        ws.len() > 0 ==> join_words(ws).len() > 0,
    decreases ws.len(),
{
    if ws.len() == 1 {
        let w = ws[0];
        assert forall|i: int| 0 <= i < w.len() implies w[i] == ' ' || char_is_alphanumeric(
            #[trigger] w[i],
        ) by {
            assert(w[i] == ws[0][i]);
        }
        assert(w[0] == ws[0][0]);
        assert(w.last() == ws[0][w.len() - 1]);
        assert forall|i: int| 0 <= i < w.len() - 1 implies !(#[trigger] w[i] == ' ' && w[i + 1]
            == ' ') by {
            assert(w[i] == ws[0][i]);
        }
    } else if ws.len() > 1 {
        let p = ws.drop_last();
        assert forall|k: int, j: int|
            0 <= k < p.len() && 0 <= j < p[k].len() implies char_is_alphanumeric(#[trigger] p[k][j])
            && p[k][j] != ' ' by {
            assert(p[k] == ws[k]);
        }
        assert forall|k: int| 0 <= k < p.len() implies (#[trigger] p[k]).len() > 0 by {
            assert(p[k] == ws[k]);
        }
        lemma_join_normal_form(p);
        let jp = join_words(p);
        let w = ws.last();
        assert(w.len() > 0 && w == ws[ws.len() - 1]);
        let r = jp + seq![' '] + w;
        assert(join_words(ws) == r);
        assert forall|i: int| 0 <= i < r.len() implies r[i] == ' ' || char_is_alphanumeric(
            #[trigger] r[i],
        ) by {
            if i < jp.len() {
                assert(r[i] == jp[i]);
            } else if i > jp.len() {
                assert(r[i] == w[i - jp.len() - 1]);
                assert(w[i - jp.len() - 1] == ws[ws.len() - 1][i - jp.len() - 1]);
            }
        }
        assert(r[0] == jp[0]);
        assert(r.last() == w.last());
        assert(w.last() == ws[ws.len() - 1][w.len() - 1]);
        assert forall|i: int| 0 <= i < r.len() - 1 implies !(#[trigger] r[i] == ' ' && r[i + 1]
            == ' ') by {
            if i < jp.len() - 1 {
                assert(r[i] == jp[i] && r[i + 1] == jp[i + 1]);
            } else if i == jp.len() - 1 {
                assert(r[i] == jp.last());
            } else if i == jp.len() {
                assert(r[i + 1] == w[0]);
                assert(w[0] == ws[ws.len() - 1][0]);
            } else {
                assert(r[i + 1] == w[i + 1 - jp.len() - 1]);
                assert(w[i + 1 - jp.len() - 1] == ws[ws.len() - 1][i + 1 - jp.len() - 1]);
            }
        }
    }
}

/// The normal form of a lowercased string is in normal form.
pub proof fn lemma_normalized_is_normal_form(lower: Seq<char>)
    ensures
        is_normal_form(normalized(lower)),
{
    let m = strip_noise(lower, 15).map_values(|c: char| clean_char(c));
    assert forall|i: int| 0 <= i < m.len() && !is_white_space(m[i]) implies char_is_alphanumeric(
        #[trigger] m[i],
    ) by {
        assert(m[i] == clean_char(strip_noise(lower, 15)[i]));
    }
    lemma_words_alphanumeric(m);
    let ws = words(m);
    assert forall|k: int, j: int|
        0 <= k < ws.len() && 0 <= j < ws[k].len() implies char_is_alphanumeric(#[trigger] ws[k][j])
        && ws[k][j] != ' ' by {
        assert(!is_white_space(ws[k][j]));
    }
    lemma_join_normal_form(ws);
}

/// Normalises an already lowercased string: removes the noise tags, turns
/// every character that is neither alphanumeric nor a space into a space,
/// and joins the remaining words with single spaces.
pub fn normalize_lowered(lower: &str) -> (r: String)
    ensures
        r@ == normalized(lower@),
        r@ == join_words(alphanumeric_runs(strip_noise(lower@, 15))),
        is_normal_form(r@),
{
    let mut working = chars_of(lower);
    let mut k: usize = 0;
    while k < NOISE_PATTERN_COUNT
        invariant
            k <= NOISE_PATTERN_COUNT,
            working@ == strip_noise(lower@, k as nat),
        decreases NOISE_PATTERN_COUNT - k,
    {
        let pat = chars_of(noise_pattern(k));
        proof {
            reveal_strlit("official video");
            reveal_strlit("official audio");
            reveal_strlit("official music video");
            reveal_strlit("lyric video");
            reveal_strlit("lyrics");
            reveal_strlit("audio");
            reveal_strlit("remastered");
            reveal_strlit("remaster");
            reveal_strlit("hd");
            reveal_strlit("hq");
            reveal_strlit("4k");
            reveal_strlit("feat.");
            reveal_strlit("feat");
            reveal_strlit("ft.");
            reveal_strlit("ft");
        }
        working = remove_word_chars(&working, &pat);
        k = k + 1;
    }
    let mut cleaned: Vec<char> = Vec::new();
    let mut i: usize = 0;
    while i < working.len()
        invariant
            i <= working.len(),
            cleaned@ == working@.take(i as int).map_values(|c: char| clean_char(c)),
            forall|j: int|
                0 <= j < i && char_is_alphanumeric(#[trigger] working@[j]) ==> !is_white_space(
                    working@[j],
                ),
        decreases working.len() - i,
    {
        let ch = working[i];
        let alnum = char_alphanumeric(ch);
        if alnum || ch == ' ' {
            cleaned.push(ch);
        } else {
            cleaned.push(' ');
        }
        i = i + 1;
        assert(cleaned@ =~= working@.take(i as int).map_values(|c: char| clean_char(c)));
    }
    assert(working@.take(working.len() as int) =~= working@);
    let collapsed = collapse_whitespace(&cleaned);
    proof {
        lemma_normalized_is_normal_form(lower@);
        lemma_clean_runs(working@);
    }
    string_of(&collapsed)
}

/// Normalises a string for matching: lowercases it, removes common noise
/// tags such as "(Official Video)", "[Audio]" or "(Remastered)", turns
/// punctuation into spaces and collapses runs of white space.
pub fn normalize_string(input: &str) -> (r: String)
    ensures
        r@ == normalized(str_lowercase(input@)),
        r@ == join_words(alphanumeric_runs(strip_noise(str_lowercase(input@), 15))),
        all_ascii(input@) ==> r@ == normalized(input@.map_values(|c: char| ascii_lower(c))),
        is_normal_form(r@),
{
    let lower = lowercase(input);
    normalize_lowered(lower.as_str())
}


// ---------------------------------------------------------------------------
// Token overlap
// ---------------------------------------------------------------------------

/// The set of whitespace-separated tokens of `s`.
pub open spec fn token_set(s: Seq<char>) -> Set<Seq<char>> {
    words(s).to_set()
}

/// The sizes behind the Jaccard similarity of two token sets.
pub struct TokenOverlap {
    /// Tokens found in both strings.
    pub shared: usize,
    /// Tokens found in either string.
    pub total: usize,
}

/// Whether `w` is one of `list`.
fn list_has(list: &Vec<Vec<char>>, w: &Vec<char>) -> (r: bool)
    ensures
        r == views(list@).contains(w@),
{
    let mut i: usize = 0;
    while i < list.len()
        invariant
            i <= list.len(),
            forall|j: int| 0 <= j < i ==> views(list@)[j] != w@,
        decreases list.len() - i,
    {
        if chars_equal(&list[i], w) {
            assert(views(list@)[i as int] == w@);
            return true;
        }
        i = i + 1;
    }
    false
}

/// `list` with repeated entries dropped, first occurrences kept.
fn distinct(list: &Vec<Vec<char>>) -> (r: Vec<Vec<char>>)
    ensures
        views(r@).no_duplicates(),
        views(r@).to_set() == views(list@).to_set(),
{
    let mut out: Vec<Vec<char>> = Vec::new();
    let mut i: usize = 0;
    let ghost l = views(list@);
    assert(l.take(0).to_set() =~= Set::<Seq<char>>::empty());
    assert(views(out@).to_set() =~= Set::<Seq<char>>::empty());
    while i < list.len()
        invariant
            i <= list.len(),
            l == views(list@),
            views(out@).no_duplicates(),
            views(out@).to_set() == l.take(i as int).to_set(),
        decreases list.len() - i,
    {
        let ghost before = views(out@);
        assert(l.take(i + 1) =~= l.take(i as int).push(l[i as int]));
        proof {
            l.take(i as int).lemma_push_to_set_commute(l[i as int]);
        }
        if !list_has(&out, &list[i]) {
            let w = list[i].clone();
            assert(w@ == l[i as int]);
            out.push(w);
            assert(views(out@) =~= before.push(l[i as int]));
            proof {
                before.lemma_push_to_set_commute(l[i as int]);
            }
        } else {
            assert(before.to_set().contains(l[i as int]));
            assert(l.take(i + 1).to_set() =~= before.to_set());
        }
        i = i + 1;
    }
    assert(l.take(list.len() as int) =~= l);
    out
}

/// Counts the whitespace-separated tokens that two strings share and the
/// tokens found in either, each distinct token counted once (the sizes of
/// the intersection and of the union of the two token sets).
pub fn token_overlap(a: &str, b: &str) -> (r: TokenOverlap)
    ensures
        r.shared == token_set(a@).intersect(token_set(b@)).len(),
        r.total == token_set(a@).union(token_set(b@)).len(),
{
    let wa = words_of(&chars_of(a));
    let wb = words_of(&chars_of(b));
    let ua = distinct(&wa);
    let ub = distinct(&wb);
    let ghost sa = token_set(a@);
    let ghost sb = token_set(b@);
    let ghost ua_v = views(ua@);
    let ghost ub_v = views(ub@);
    let mut common: Vec<Vec<char>> = Vec::new();
    let mut i: usize = 0;
    assert(ua_v.take(0).to_set() =~= Set::<Seq<char>>::empty());
    assert(views(common@).to_set() =~= Set::<Seq<char>>::empty());
    while i < ua.len()
        invariant
            i <= ua.len(),
            ua_v == views(ua@),
            ub_v == views(ub@),
            ua_v.no_duplicates(),
            views(common@).no_duplicates(),
            views(common@).to_set() == ua_v.take(i as int).to_set().intersect(ub_v.to_set()),
        decreases ua.len() - i,
    {
        let ghost before = views(common@);
        let ghost x = ua_v[i as int];
        assert(ua_v.take(i + 1) =~= ua_v.take(i as int).push(x));
        proof {
            ua_v.take(i as int).lemma_push_to_set_commute(x);
        }
        if list_has(&ub, &ua[i]) {
            assert(!before.contains(x)) by {
                if before.contains(x) {
                    let j = choose|j: int| 0 <= j < before.len() && before[j] == x;
                    assert(before.to_set().contains(x));
                    assert(ua_v.take(i as int).to_set().contains(x));
                    let m = choose|m: int| 0 <= m < i && ua_v.take(i as int)[m] == x;
                    assert(ua_v[m] == ua_v[i as int]);
                }
            }
            let w = ua[i].clone();
            assert(w@ == x);
            common.push(w);
            assert(views(common@) =~= before.push(x));
            proof {
                before.lemma_push_to_set_commute(x);
            }
            assert(views(common@).to_set() =~= ua_v.take(i + 1).to_set().intersect(ub_v.to_set()));
        } else {
            assert(views(common@).to_set() =~= ua_v.take(i + 1).to_set().intersect(ub_v.to_set()));
        }
        i = i + 1;
    }
    assert(ua_v.take(ua.len() as int) =~= ua_v);
    let mut either: Vec<Vec<char>> = Vec::new();
    let mut k: usize = 0;
    assert(views(either@).to_set() =~= Set::<Seq<char>>::empty());
    while k < ua.len()
        invariant
            k <= ua.len(),
            ua_v == views(ua@),
            views(either@) == ua_v.take(k as int),
        decreases ua.len() - k,
    {
        let ghost before = views(either@);
        let w = ua[k].clone();
        assert(w@ == ua_v[k as int]);
        either.push(w);
        assert(views(either@) =~= before.push(ua_v[k as int]));
        assert(ua_v.take(k + 1) =~= ua_v.take(k as int).push(ua_v[k as int]));
        k = k + 1;
        assert(views(either@) =~= ua_v.take(k as int));
    }
    assert(ua_v.take(ua.len() as int) =~= ua_v);
    let mut j: usize = 0;
    assert(ub_v.take(0).to_set() =~= Set::<Seq<char>>::empty());
    assert(ua_v.to_set() =~= ua_v.to_set().union(ub_v.take(0).to_set()));
    while j < ub.len()
        invariant
            j <= ub.len(),
            ua_v == views(ua@),
            ub_v == views(ub@),
            ub_v.no_duplicates(),
            views(either@).no_duplicates(),
            views(either@).to_set() == ua_v.to_set().union(ub_v.take(j as int).to_set()),
        decreases ub.len() - j,
    {
        let ghost before = views(either@);
        let ghost y = ub_v[j as int];
        assert(ub_v.take(j + 1) =~= ub_v.take(j as int).push(y));
        proof {
            ub_v.take(j as int).lemma_push_to_set_commute(y);
        }
        if !list_has(&either, &ub[j]) {
            let w = ub[j].clone();
            assert(w@ == y);
            either.push(w);
            assert(views(either@) =~= before.push(y));
            proof {
                before.lemma_push_to_set_commute(y);
            }
            assert(views(either@).to_set() =~= ua_v.to_set().union(ub_v.take(j + 1).to_set()));
        } else {
            assert(before.to_set().contains(y));
            assert(views(either@).to_set() =~= ua_v.to_set().union(ub_v.take(j + 1).to_set()));
        }
        j = j + 1;
    }
    assert(ub_v.take(ub.len() as int) =~= ub_v);
    proof {
        views(common@).unique_seq_to_set();
        views(either@).unique_seq_to_set();
    }
    let shared = common.len();
    let total = either.len();
    TokenOverlap { shared, total }
}

/// The shared count never exceeds the total, so the Jaccard ratio
/// `shared / total` lies in `[0, 1]`.
pub proof fn lemma_token_overlap_bounded(a: Seq<char>, b: Seq<char>)
    ensures
        token_set(a).intersect(token_set(b)).len() <= token_set(a).union(token_set(b)).len(),
{
    let sa = token_set(a);
    let sb = token_set(b);
    vstd::seq_lib::seq_to_set_is_finite(words(a));
    vstd::seq_lib::seq_to_set_is_finite(words(b));
    vstd::set_lib::lemma_len_intersect(sa, sb);
    vstd::set_lib::lemma_len_subset(sa, sa.union(sb));
}

/// The total is zero exactly when both strings have no tokens (the case the
/// similarity treats as a perfect match).
pub proof fn lemma_token_overlap_total_zero(a: Seq<char>, b: Seq<char>)
    ensures
        (token_set(a).union(token_set(b)).len() == 0) <==> (token_set(a).len() == 0
            && token_set(b).len() == 0),
{
    let sa = token_set(a);
    let sb = token_set(b);
    vstd::seq_lib::seq_to_set_is_finite(words(a));
    vstd::seq_lib::seq_to_set_is_finite(words(b));
    vstd::set_lib::lemma_len_subset(sa, sa.union(sb));
    vstd::set_lib::lemma_len_subset(sb, sa.union(sb));
    if sa.len() == 0 && sb.len() == 0 {
        sa.lemma_len0_is_empty();
        sb.lemma_len0_is_empty();
        assert(sa.union(sb) =~= Set::<Seq<char>>::empty());
    }
}

/// Token overlap does not depend on the order of the two strings.
pub proof fn lemma_token_overlap_symmetric(a: Seq<char>, b: Seq<char>)
    ensures
        token_set(a).intersect(token_set(b)).len() == token_set(b).intersect(token_set(a)).len(),
        token_set(a).union(token_set(b)).len() == token_set(b).union(token_set(a)).len(),
{
    assert(token_set(a).intersect(token_set(b)) =~= token_set(b).intersect(token_set(a)));
    assert(token_set(a).union(token_set(b)) =~= token_set(b).union(token_set(a)));
}

/// A string shares all of its tokens with itself.
pub proof fn lemma_token_overlap_self(a: Seq<char>)
    ensures
        token_set(a).intersect(token_set(a)).len() == token_set(a).union(token_set(a)).len(),
{
    assert(token_set(a).intersect(token_set(a)) =~= token_set(a).union(token_set(a)));
}

// ---------------------------------------------------------------------------
// Edit similarity and durations
// ---------------------------------------------------------------------------

/// The sizes behind the normalised Levenshtein similarity
/// `1 - distance / longest` (1 when both strings are empty).
pub struct EditSimilarity {
    /// The Levenshtein distance.
    pub distance: usize,
    /// The length, in characters, of the longer string.
    pub longest: usize,
}

/// The Levenshtein distance of two strings and the length of the longer one.
pub fn levenshtein_similarity_parts(s1: &str, s2: &str) -> (r: EditSimilarity)
    requires
        s1@.len() < usize::MAX,
        s2@.len() < usize::MAX,
    ensures
        r.distance == edit_distance(s1@, s2@),
        r.longest == max_len(s1@, s2@),
        r.distance <= r.longest,
{
    let v1 = chars_of(s1);
    let v2 = chars_of(s2);
    let longest = if v1.len() >= v2.len() {
        v1.len()
    } else {
        v2.len()
    };
    let distance = edit_distance_chars(&v1, &v2);
    proof {
        lemma_edit_distance_at_most_max_len(s1@, s2@);
    }
    EditSimilarity { distance, longest }
}

/// How closely two track durations (in seconds, 0 meaning unknown) agree.
#[derive(PartialEq, Eq, Structural, Clone, Copy, Debug)]
pub enum DurationAgreement {
    /// One of the durations is unknown.
    Unknown,
    /// They differ by at most 3 seconds.
    WithinThree,
    /// They differ by 4 to 8 seconds.
    WithinEight,
    /// They differ by 9 to 15 seconds.
    WithinFifteen,
    /// They differ by more than 15 seconds.
    Beyond,
}

/// The agreement band of two durations.
pub open spec fn duration_band(target: u64, candidate: u64) -> DurationAgreement {
    if target > 0 && candidate > 0 {
        let diff: int = if target > candidate {
            target - candidate
        } else {
            candidate - target
        };
        if diff <= 3 {
            DurationAgreement::WithinThree
        } else if diff <= 8 {
            DurationAgreement::WithinEight
        } else if diff <= 15 {
            DurationAgreement::WithinFifteen
        } else {
            DurationAgreement::Beyond
        }
    } else {
        DurationAgreement::Unknown
    }
}

/// The agreement band does not depend on which duration is the target.
pub proof fn lemma_duration_band_symmetric(a: u64, b: u64)
    ensures
        duration_band(a, b) == duration_band(b, a),
{
}

/// For two known (positive) durations the band depends only on how far
/// apart they are, and durations at most 3 seconds apart (equal ones
/// included) are in the closest band; the band is `Unknown` exactly when a
/// duration is 0.
pub proof fn lemma_duration_band_by_difference(a: u64, b: u64, c: u64, d: u64)
    ensures
        (duration_band(a, b) == DurationAgreement::Unknown) <==> (a == 0 || b == 0),
        a > 0 && b > 0 && -3 <= a - b <= 3 ==> duration_band(a, b)
            == DurationAgreement::WithinThree,
        a > 0 && b > 0 && (3 < a - b <= 8 || 3 < b - a <= 8) ==> duration_band(a, b)
            == DurationAgreement::WithinEight,
        a > 0 && b > 0 && (8 < a - b <= 15 || 8 < b - a <= 15) ==> duration_band(a, b)
            == DurationAgreement::WithinFifteen,
        a > 0 && b > 0 && (a - b > 15 || b - a > 15) ==> duration_band(a, b)
            == DurationAgreement::Beyond,
        a > 0 && b > 0 && c > 0 && d > 0 && (a - b == c - d || a - b == d - c) ==> duration_band(
            a,
            b,
        ) == duration_band(c, d),
{
}

/// Classifies how closely a candidate's duration agrees with the target's.
pub fn duration_agreement(target: u64, candidate: u64) -> (r: DurationAgreement)
    ensures
        r == duration_band(target, candidate),
{
    if target > 0 && candidate > 0 {
        let diff = if target > candidate {
            target - candidate
        } else {
            candidate - target
        };
        if diff <= 3 {
            DurationAgreement::WithinThree
        } else if diff <= 8 {
            DurationAgreement::WithinEight
        } else if diff <= 15 {
            DurationAgreement::WithinFifteen
        } else {
            DurationAgreement::Beyond
        }
    } else {
        DurationAgreement::Unknown
    }
}


// ---------------------------------------------------------------------------
// Words of the normal form: no noise tag survives as a word
// ---------------------------------------------------------------------------

/// `s[a..b]` is a maximal run of alphanumeric characters.
pub open spec fn is_run(s: Seq<char>, a: int, b: int) -> bool {
    &&& 0 <= a < b <= s.len()
    &&& forall|k: int| a <= k < b ==> char_is_alphanumeric(#[trigger] s[k])
    &&& (a == 0 || !char_is_alphanumeric(s[a - 1]))
    &&& (b == s.len() || !char_is_alphanumeric(s[b]))
}

/// `w` is one of the maximal alphanumeric runs of `s`.
pub open spec fn has_run(s: Seq<char>, w: Seq<char>) -> bool {
    exists|a: int, b: int| #[trigger] is_run(s, a, b) && s.subrange(a, b) == w
}

proof fn lemma_run_extend(p: Seq<char>, c: char, a: int, b: int)
    requires
        is_run(p, a, b),
        b < p.len() || !char_is_alphanumeric(c),
    ensures
        is_run(p.push(c), a, b),
        p.push(c).subrange(a, b) == p.subrange(a, b),
{
    let s = p.push(c);
    assert forall|k: int| a <= k < b implies char_is_alphanumeric(#[trigger] s[k]) by {
        assert(s[k] == p[k]);
    }
    if a > 0 {
        assert(s[a - 1] == p[a - 1]);
    }
    if b < p.len() {
        assert(s[b] == p[b]);
    } else {
        assert(s[b] == c);
    }
    assert(s.subrange(a, b) =~= p.subrange(a, b));
}

/// `w` is the content of a maximal run of `s`, one that ends before the
/// end of `s` when `inner` holds.
spec fn run_witness(s: Seq<char>, w: Seq<char>, inner: bool) -> bool {
    exists|a: int, b: int|
        #![trigger is_run(s, a, b)]
        is_run(s, a, b) && s.subrange(a, b) == w && (inner ==> b < s.len())
}

/// `w` is the content of a maximal run of `s` that ends at the end of `s`.
spec fn final_run(s: Seq<char>, w: Seq<char>) -> bool {
    exists|a: int|
        #![trigger is_run(s, a, s.len() as int)]
        is_run(s, a, s.len() as int) && s.subrange(a, s.len() as int) == w
}

/// Each entry of `alphanumeric_runs(s)` is the content of a maximal run of `s`.
proof fn lemma_runs_are_runs(s: Seq<char>)
    ensures
        forall|k: int|
            0 <= k < alphanumeric_runs(s).len() ==> run_witness(
                s,
                #[trigger] alphanumeric_runs(s)[k],
                k < alphanumeric_runs(s).len() - 1,
            ),
        s.len() > 0 && char_is_alphanumeric(s.last()) ==> alphanumeric_runs(s).len() > 0
            && final_run(s, alphanumeric_runs(s).last()),
    decreases s.len(),
{
    if s.len() > 0 {
        let p = s.drop_last();
        let c = s.last();
        assert(s =~= p.push(c));
        lemma_runs_are_runs(p);
        let r = alphanumeric_runs(p);
        let r2 = alphanumeric_runs(s);
        if !char_is_alphanumeric(c) {
            assert forall|k: int| 0 <= k < r2.len() implies run_witness(
                s,
                #[trigger] r2[k],
                k < r2.len() - 1,
            ) by {
                assert(run_witness(p, r[k], k < r.len() - 1));
                let (a, b) = choose|a: int, b: int|
                    #![trigger is_run(p, a, b)]
                    is_run(p, a, b) && p.subrange(a, b) == r[k] && (k < r.len() - 1 ==> b
                        < p.len());
                lemma_run_extend(p, c, a, b);
                assert(is_run(s, a, b));
            }
        } else if s.len() >= 2 && char_is_alphanumeric(s[s.len() - 2]) {
            assert(p.last() == s[s.len() - 2]);
            let a0 = choose|a: int|
                #![trigger is_run(p, a, p.len() as int)]
                is_run(p, a, p.len() as int) && p.subrange(a, p.len() as int) == r.last();
            assert(is_run(s, a0, s.len() as int)) by {
                assert forall|k: int| a0 <= k < s.len() implies char_is_alphanumeric(
                    #[trigger] s[k],
                ) by {
                    if k < p.len() {
                        assert(s[k] == p[k]);
                    }
                }
                if a0 > 0 {
                    assert(s[a0 - 1] == p[a0 - 1]);
                }
            }
            assert(r2.last() == s.subrange(a0, s.len() as int)) by {
                assert(r2.last() == r.last().push(c));
                assert(s.subrange(a0, s.len() as int) =~= p.subrange(a0, p.len() as int).push(c));
            }
            assert(final_run(s, r2.last()));
            assert forall|k: int| 0 <= k < r2.len() implies run_witness(
                s,
                #[trigger] r2[k],
                k < r2.len() - 1,
            ) by {
                if k == r2.len() - 1 {
                    assert(is_run(s, a0, s.len() as int));
                } else {
                    assert(r2[k] == r[k]);
                    assert(run_witness(p, r[k], k < r.len() - 1));
                    let (a, b) = choose|a: int, b: int|
                        #![trigger is_run(p, a, b)]
                        is_run(p, a, b) && p.subrange(a, b) == r[k] && (k < r.len() - 1 ==> b
                            < p.len());
                    lemma_run_extend(p, c, a, b);
                    assert(is_run(s, a, b));
                }
            }
        } else {
            let n = p.len() as int;
            assert(is_run(s, n, n + 1)) by {
                if n > 0 {
                    assert(s[n - 1] == p[n - 1]);
                }
            }
            assert(r2.last() == s.subrange(n, n + 1)) by {
                assert(s.subrange(n, n + 1) =~= seq![c]);
            }
            assert(final_run(s, r2.last()));
            assert forall|k: int| 0 <= k < r2.len() implies run_witness(
                s,
                #[trigger] r2[k],
                k < r2.len() - 1,
            ) by {
                if k == r2.len() - 1 {
                    assert(is_run(s, n, n + 1));
                } else {
                    assert(r2[k] == r[k]);
                    assert(run_witness(p, r[k], k < r.len() - 1));
                    let (a, b) = choose|a: int, b: int|
                        #![trigger is_run(p, a, b)]
                        is_run(p, a, b) && p.subrange(a, b) == r[k] && (k < r.len() - 1 ==> b
                            < p.len());
                    if b == p.len() {
                        assert(p[b - 1] == p.last());
                    }
                    lemma_run_extend(p, c, a, b);
                    assert(is_run(s, a, b));
                }
            }
        }
    }
}

/// A word of the alphanumeric runs is a maximal run.
proof fn lemma_runs_contains(s: Seq<char>, w: Seq<char>)
    requires
        alphanumeric_runs(s).contains(w),
    ensures
        has_run(s, w),
{
    lemma_runs_are_runs(s);
    let k = choose|k: int| 0 <= k < alphanumeric_runs(s).len() && alphanumeric_runs(s)[k] == w;
    assert(run_witness(s, alphanumeric_runs(s)[k], k < alphanumeric_runs(s).len() - 1));
    let (a, b) = choose|a: int, b: int|
        #![trigger is_run(s, a, b)]
        is_run(s, a, b) && s.subrange(a, b) == w && (k < alphanumeric_runs(s).len() - 1 ==> b
            < s.len());
    assert(is_run(s, a, b) && s.subrange(a, b) == w);
}

/// The positions of `s`, from `i` on, that the whole-word removal of `pat` keeps.
spec fn kept(s: Seq<char>, pat: Seq<char>, i: int) -> Seq<int>
    decreases s.len() - i,
{
    if i < 0 || i >= s.len() {
        Seq::<int>::empty()
    } else if pat.len() > 0 && word_at(s, pat, i) {
        kept(s, pat, i + pat.len())
    } else {
        seq![i] + kept(s, pat, i + 1)
    }
}

/// The removal keeps exactly the characters at the kept positions.
proof fn lemma_kept_chars(s: Seq<char>, pat: Seq<char>, i: int)
    requires
        0 <= i <= s.len(),
    ensures
        remove_words_from(s, pat, i) == kept(s, pat, i).map_values(|j: int| s[j]),
    decreases s.len() - i,
{
    if i < s.len() {
        if pat.len() > 0 && word_at(s, pat, i) {
            lemma_kept_chars(s, pat, i + pat.len());
        } else {
            lemma_kept_chars(s, pat, i + 1);
            assert(remove_words_from(s, pat, i) =~= kept(s, pat, i).map_values(|j: int| s[j]));
        }
    } else {
        assert(remove_words_from(s, pat, i) =~= kept(s, pat, i).map_values(|j: int| s[j]));
    }
}

/// Kept positions `j - 1` and `j` are next to each other in `s`, or the
/// characters at both are not alphanumeric.
spec fn step_ok(s: Seq<char>, ks: Seq<int>, j: int) -> bool {
    ks[j] == ks[j - 1] + 1 || (!char_is_alphanumeric(s[ks[j - 1]]) && !char_is_alphanumeric(
        s[ks[j]],
    ))
}

/// The kept positions increase, are never the start of a whole-word
/// occurrence, and wherever some positions were dropped the kept characters
/// on both sides of the gap are not alphanumeric.
proof fn lemma_kept_props(s: Seq<char>, pat: Seq<char>, i: int)
    requires
        0 <= i <= s.len(),
    ensures
        ({
            let ks = kept(s, pat, i);
            &&& forall|j: int| 0 <= j < ks.len() ==> i <= #[trigger] ks[j] < s.len()
            &&& forall|j: int, k: int| 0 <= j < k < ks.len() ==> #[trigger] ks[j] < #[trigger] ks[k]
            &&& forall|j: int| 0 <= j < ks.len() ==> !(pat.len() > 0 && word_at(s, pat, #[trigger] ks[j]))
            &&& forall|j: int| 1 <= j < ks.len() ==> #[trigger] step_ok(s, ks, j)
            &&& ks.len() > 0 && ks[0] != i ==> !char_is_alphanumeric(s[ks[0]]) && (i == 0
                || !char_is_alphanumeric(s[i - 1]))
            &&& ks.len() > 0 && ks.last() != s.len() - 1 ==> !char_is_alphanumeric(s[ks.last()])
            &&& ks.len() == 0 && i < s.len() ==> (i == 0 || !char_is_alphanumeric(s[i - 1]))
        }),
    decreases s.len() - i,
{
    if i < s.len() {
        if pat.len() > 0 && word_at(s, pat, i) {
            lemma_kept_props(s, pat, i + pat.len());
        } else {
            lemma_kept_props(s, pat, i + 1);
            let ks2 = kept(s, pat, i + 1);
            let ks = kept(s, pat, i);
            assert(ks == seq![i] + ks2);
            assert forall|j: int| 0 <= j < ks.len() implies i <= #[trigger] ks[j] < s.len() by {
                if j > 0 {
                    assert(ks[j] == ks2[j - 1]);
                }
            }
            assert forall|j: int, k: int| 0 <= j < k < ks.len() implies #[trigger] ks[j]
                < #[trigger] ks[k] by {
                assert(ks[k] == ks2[k - 1]);
                if j > 0 {
                    assert(ks[j] == ks2[j - 1]);
                }
            }
            assert forall|j: int| 0 <= j < ks.len() implies !(pat.len() > 0 && word_at(
                s,
                pat,
                #[trigger] ks[j],
            )) by {
                if j > 0 {
                    assert(ks[j] == ks2[j - 1]);
                }
            }
            assert forall|j: int| 1 <= j < ks.len() implies #[trigger] step_ok(s, ks, j) by {
                assert(ks[j] == ks2[j - 1]);
                if j > 1 {
                    assert(ks[j - 1] == ks2[j - 2]);
                    assert(step_ok(s, ks2, j - 1));
                }
            }
            if ks2.len() == 0 && i + 1 < s.len() {
                assert(ks.last() == i);
            }
            if ks2.len() > 0 {
                assert(ks.last() == ks2.last());
            }
        }
    }
}

/// Consecutive alphanumeric kept characters sit next to each other in `s`.
proof fn lemma_kept_consecutive(s: Seq<char>, pat: Seq<char>, a: int, m: int)
    requires
        0 <= a,
        0 <= m,
        a + m < kept(s, pat, 0).len(),
        forall|j: int|
            a <= j < a + m ==> char_is_alphanumeric(s[#[trigger] kept(s, pat, 0)[j]]),
        forall|j: int| 1 <= j < kept(s, pat, 0).len() ==> #[trigger] step_ok(s, kept(s, pat, 0), j),
    ensures
        kept(s, pat, 0)[a + m] == kept(s, pat, 0)[a] + m,
    decreases m,
{
    if m > 0 {
        lemma_kept_consecutive(s, pat, a, m - 1);
        let ks = kept(s, pat, 0);
        assert(char_is_alphanumeric(s[ks[a + m - 1]]));
        assert(step_ok(s, ks, a + m));
    }
}

/// A maximal run of the text after removing `pat` as a whole word is a
/// maximal run of the text before, at a position where `pat` did not occur
/// as a whole word.
proof fn lemma_run_survives_removal(s: Seq<char>, pat: Seq<char>, a: int, b: int)
    requires
        is_run(remove_words(s, pat), a, b),
    ensures
        exists|x: int|
            #![trigger is_run(s, x, x + (b - a))]
            is_run(s, x, x + (b - a)) && s.subrange(x, x + (b - a)) == remove_words(
                s,
                pat,
            ).subrange(a, b) && !(pat.len() > 0 && word_at(s, pat, x)),
{
    let t = remove_words(s, pat);
    let ks = kept(s, pat, 0);
    lemma_kept_chars(s, pat, 0);
    lemma_kept_props(s, pat, 0);
    assert(t.len() == ks.len());
    assert forall|j: int| 0 <= j < t.len() implies #[trigger] t[j] == s[ks[j]] by {}
    let l = b - a;
    let x = ks[a];
    assert forall|j: int| a <= j < a + (b - a - 1) implies char_is_alphanumeric(
        s[#[trigger] ks[j]],
    ) by {
        assert(t[j] == s[ks[j]]);
    }
    assert forall|m: int| 0 <= m < l implies #[trigger] ks[a + m] == x + m by {
        assert forall|j: int| a <= j < a + m implies char_is_alphanumeric(s[#[trigger] ks[j]]) by {
            assert(t[j] == s[ks[j]]);
        }
        lemma_kept_consecutive(s, pat, a, m);
    }
    assert forall|k: int| x <= k < x + l implies char_is_alphanumeric(#[trigger] s[k]) by {
        assert(ks[a + (k - x)] == k);
        assert(t[a + (k - x)] == s[k]);
    }
    // left boundary
    if a == 0 {
        if x != 0 {
            assert(t[0] == s[ks[0]]);
        }
    } else {
        assert(step_ok(s, ks, a));
        assert(t[a] == s[ks[a]]);
        assert(t[a - 1] == s[ks[a - 1]]);
    }
    // right boundary
    assert(ks[a + (l - 1)] == x + (l - 1));
    assert(a + (l - 1) == b - 1);
    assert(ks[b - 1] == x + l - 1);
    assert(t[b - 1] == s[ks[b - 1]]);
    if b == t.len() {
        assert(ks.last() == ks[b - 1]);
    } else {
        assert(step_ok(s, ks, b));
        assert(t[b] == s[ks[b]]);
    }
    assert(is_run(s, x, x + l));
    assert(s.subrange(x, x + l) =~= t.subrange(a, b)) by {
        assert forall|m: int| 0 <= m < l implies #[trigger] s.subrange(x, x + l)[m] == t.subrange(
            a,
            b,
        )[m] by {
            assert(ks[a + m] == x + m);
            assert(t[a + m] == s[ks[a + m]]);
        }
    }
}

/// After removing `pat` as a whole word, no maximal run equals `pat`.
proof fn lemma_removed_word_gone(s: Seq<char>, pat: Seq<char>)
    requires
        pat.len() > 0,
    ensures
        !has_run(remove_words(s, pat), pat),
{
    let t = remove_words(s, pat);
    if has_run(t, pat) {
        let (a, b) = choose|a: int, b: int| #[trigger] is_run(t, a, b) && t.subrange(a, b) == pat;
        lemma_run_survives_removal(s, pat, a, b);
        let x = choose|x: int|
            #![trigger is_run(s, x, x + (b - a))]
            is_run(s, x, x + (b - a)) && s.subrange(x, x + (b - a)) == t.subrange(a, b) && !(
            pat.len() > 0 && word_at(s, pat, x));
        assert(b - a == pat.len());
        assert(word_at(s, pat, x));
    }
}

/// Removing a word never makes a new maximal run.
proof fn lemma_removal_no_new_runs(s: Seq<char>, pat: Seq<char>, w: Seq<char>)
    requires
        has_run(remove_words(s, pat), w),
    ensures
        has_run(s, w),
{
    let t = remove_words(s, pat);
    let (a, b) = choose|a: int, b: int| #[trigger] is_run(t, a, b) && t.subrange(a, b) == w;
    lemma_run_survives_removal(s, pat, a, b);
    let x = choose|x: int|
        #![trigger is_run(s, x, x + (b - a))]
        is_run(s, x, x + (b - a)) && s.subrange(x, x + (b - a)) == t.subrange(a, b) && !(pat.len()
            > 0 && word_at(s, pat, x));
    assert(is_run(s, x, x + (b - a)) && s.subrange(x, x + (b - a)) == w);
}

/// Later tag removals keep a word absent.
proof fn lemma_strip_keeps_absent(s: Seq<char>, w: Seq<char>, k1: nat, k2: nat)
    requires
        k1 <= k2,
        !has_run(strip_noise(s, k1), w),
    ensures
        !has_run(strip_noise(s, k2), w),
    decreases k2,
{
    if k2 > k1 {
        lemma_strip_keeps_absent(s, w, k1, (k2 - 1) as nat);
        if has_run(strip_noise(s, k2), w) {
            lemma_removal_no_new_runs(
                strip_noise(s, (k2 - 1) as nat),
                noise_patterns()[k2 - 1],
                w,
            );
        }
    }
}

/// The tag at position `k` of the list is no word of the normal form.
proof fn lemma_tag_absent(lower: Seq<char>, k: nat)
    requires
        k < 15,
        noise_patterns()[k as int].len() > 0,
    ensures
        !alphanumeric_runs(strip_noise(lower, 15)).contains(noise_patterns()[k as int]),
{
    lemma_removed_word_gone(strip_noise(lower, k), noise_patterns()[k as int]);
    lemma_strip_keeps_absent(lower, noise_patterns()[k as int], k + 1, 15);
    if alphanumeric_runs(strip_noise(lower, 15)).contains(noise_patterns()[k as int]) {
        lemma_runs_contains(strip_noise(lower, 15), noise_patterns()[k as int]);
    }
}

/// No word of the normal form is a single-word noise tag: the words that the
/// normalised text joins never include "lyrics", "audio", "remastered",
/// "remaster", "hd", "hq", "4k", "feat" or "ft", whatever the input.
pub proof fn lemma_normalized_words_are_not_noise_tags(lower: Seq<char>)
    ensures
        !alphanumeric_runs(strip_noise(lower, 15)).contains("lyrics"@),
        !alphanumeric_runs(strip_noise(lower, 15)).contains("audio"@),
        !alphanumeric_runs(strip_noise(lower, 15)).contains("remastered"@),
        !alphanumeric_runs(strip_noise(lower, 15)).contains("remaster"@),
        !alphanumeric_runs(strip_noise(lower, 15)).contains("hd"@),
        !alphanumeric_runs(strip_noise(lower, 15)).contains("hq"@),
        !alphanumeric_runs(strip_noise(lower, 15)).contains("4k"@),
        !alphanumeric_runs(strip_noise(lower, 15)).contains("feat"@),
        !alphanumeric_runs(strip_noise(lower, 15)).contains("ft"@),
{
    reveal_strlit("lyrics");
    reveal_strlit("audio");
    reveal_strlit("remastered");
    reveal_strlit("remaster");
    reveal_strlit("hd");
    reveal_strlit("hq");
    reveal_strlit("4k");
    reveal_strlit("feat");
    reveal_strlit("ft");
    assert(noise_patterns()[4] == "lyrics"@);
    assert(noise_patterns()[5] == "audio"@);
    assert(noise_patterns()[6] == "remastered"@);
    assert(noise_patterns()[7] == "remaster"@);
    assert(noise_patterns()[8] == "hd"@);
    assert(noise_patterns()[9] == "hq"@);
    assert(noise_patterns()[10] == "4k"@);
    assert(noise_patterns()[12] == "feat"@);
    assert(noise_patterns()[14] == "ft"@);
    lemma_tag_absent(lower, 4);
    lemma_tag_absent(lower, 5);
    lemma_tag_absent(lower, 6);
    lemma_tag_absent(lower, 7);
    lemma_tag_absent(lower, 8);
    lemma_tag_absent(lower, 9);
    lemma_tag_absent(lower, 10);
    lemma_tag_absent(lower, 12);
    lemma_tag_absent(lower, 14);
}

} // verus!

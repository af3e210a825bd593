//! The Playfair cipher: a digraph-substitution cipher over a keyed 5x5
//! letter square.
//!
//! The square's alphabet is the 25 uppercase ASCII letters with 'J' merged
//! into 'I'. A keyword seeds the square: its letters, normalised and
//! deduplicated, fill the cells first, and the unused letters of the
//! alphabet follow in their canonical order. Text is normalised onto the
//! alphabet, split into letter pairs (with a filler letter breaking up
//! doubled letters and completing an odd tail), and each pair is moved
//! through the square by the row, column or rectangle rule.

use vstd::prelude::*;
use crate::text::{ascii_upper, str_to_chars, chars_to_string, upper_char};

verus! {

/// Error type for the Playfair cipher functions.
#[derive(Debug, Clone, Copy, PartialEq, Eq)]
pub enum PlayfairError {
    /// The keyword or the text was empty before normalisation.
    EmptyInput,
    /// Normalisation removed every character of the text.
    InvalidText,
    /// A letter could not be located in the square; unreachable for
    /// normalised text and kept as a defensive error.
    CharNotFound,
}

/// Modes of operation for the Playfair cipher.
#[derive(Debug, Clone, Copy, PartialEq, Eq)]
pub enum Mode {
    Encrypt,
    Decrypt,
}

// ---------------------------------------------------------------------------
// Alphabet policy
// ---------------------------------------------------------------------------

/// The letter of the square's alphabet at index `i`: the uppercase ASCII
/// letters in order, with 'J' left out.
pub open spec fn letter(i: int) -> char {
    if i < 9 {
        (65 + i) as char
    } else {
        (66 + i) as char
    }
}

/// The square's alphabet as an ordered sequence of 25 letters.
pub open spec fn alphabet() -> Seq<char> {
    Seq::new(25, |i: int| letter(i))
}

/// A member of the square's alphabet: an uppercase ASCII letter other
/// than 'J'.
pub open spec fn is_grid_char(c: char) -> bool {
    'A' <= c && c <= 'Z' && c != 'J'
}

pub proof fn lemma_alphabet_members()
    ensures
        forall|i: int| 0 <= i < 25 ==> is_grid_char(#[trigger] letter(i)),
        forall|i: int, j: int| 0 <= i < j < 25 ==> letter(i) != letter(j),
        forall|c: char| is_grid_char(c) ==> alphabet().contains(c),
        forall|c: char| alphabet().contains(c) ==> is_grid_char(c),
{
    assert forall|c: char| is_grid_char(c) implies alphabet().contains(c) by {
        let i: int = if c <= 'I' {
            c as int - 65
        } else {
            c as int - 66
        };
        assert(alphabet()[i] == c);
    }
}

// ---------------------------------------------------------------------------
// Text normalisation
// ---------------------------------------------------------------------------

/// The letter-merge rule: 'J' stands for 'I' in the square.
pub open spec fn merge_char(c: char) -> char {
    if c == 'J' {
        'I'
    } else {
        c
    }
}

/// One character after case folding and the letter merge.
pub open spec fn norm_char(c: char) -> char {
    merge_char(ascii_upper(c))
}

/// Whether a raw character survives normalisation.
pub open spec fn keeps(c: char) -> bool {
    is_grid_char(norm_char(c))
}

/// The canonical symbol stream of a text: ASCII letters uppercased, 'J'
/// merged into 'I', every other character dropped.
pub open spec fn normalize(s: Seq<char>) -> Seq<char>
    decreases s.len(),
{
    if s.len() == 0 {
        Seq::empty()
    } else {
        normalize(s.drop_last()) + if keeps(s.last()) {
            seq![norm_char(s.last())]
        } else {
            Seq::empty()
        }
    }
}

/// Every character of a normalised stream is a member of the alphabet.
pub proof fn lemma_normalize_grid_chars(s: Seq<char>)
    ensures
        forall|i: int| 0 <= i < normalize(s).len() ==> is_grid_char(#[trigger] normalize(s)[i]),
    decreases s.len(),
{
    if s.len() > 0 {
        lemma_normalize_grid_chars(s.drop_last());
        let pre = normalize(s.drop_last());
        assert forall|i: int| 0 <= i < normalize(s).len() implies is_grid_char(
            #[trigger] normalize(s)[i],
        ) by {
            if i < pre.len() {
                assert(normalize(s)[i] == pre[i]);
            } else {
                assert(normalize(s)[i] == norm_char(s.last()));
            }
        }
    }
}

/// A stream that is already over the alphabet is its own normalisation.
pub proof fn lemma_normalize_fixpoint(s: Seq<char>)
    requires
        forall|i: int| 0 <= i < s.len() ==> is_grid_char(#[trigger] s[i]),
    ensures
        normalize(s) == s,
    decreases s.len(),
{
    if s.len() > 0 {
        lemma_normalize_fixpoint(s.drop_last());
        assert(is_grid_char(s.last()));
        assert(norm_char(s.last()) == s.last());
        assert(normalize(s) =~= s);
    } else {
        assert(normalize(s) =~= s);
    }
}

/// Whether a character survives normalisation, and what it becomes.
fn normalize_one(c: char) -> (r: Option<char>)
    ensures
        keeps(c) ==> r == Some(norm_char(c)),
        !keeps(c) ==> r is None,
{
    let u = upper_char(c);
    let m = if u == 'J' {
        'I'
    } else {
        u
    };
    if 'A' <= m && m <= 'Z' && m != 'J' {
        Some(m)
    } else {
        None
    }
}

/// Normalises a text into the characters the square can hold.
fn normalize_str(s: &str) -> (v: Vec<char>)
    ensures
        v@ == normalize(s@),
{
    let chars = str_to_chars(s);
    let mut out: Vec<char> = Vec::new();
    let mut i: usize = 0;
    while i < chars.len()
        invariant
            chars@ == s@,
            i <= chars@.len(),
            out@ == normalize(s@.take(i as int)),
        decreases chars@.len() - i,
    {
        proof {
            assert(s@.take(i + 1).drop_last() =~= s@.take(i as int));
            assert(s@.take(i + 1).last() == s@[i as int]);
        }
        match normalize_one(chars[i]) {
            Some(m) => {
                out.push(m);
                proof {
                    assert(out@ =~= normalize(s@.take(i + 1)));
                }
            },
            None => {
                proof {
                    assert(out@ =~= normalize(s@.take(i + 1)));
                }
            },
        }
        i = i + 1;
    }
    proof {
        assert(s@.take(s@.len() as int) =~= s@);
    }
    out
}

/// Prepares the input text for the Playfair cipher: uppercases ASCII
/// letters, merges 'J' into 'I', and drops every other character.
pub fn prepare_text(text: &str) -> (r: String)
    ensures
        r@ == normalize(text@),
{
    let v = normalize_str(text);
    chars_to_string(&v)
}

// ---------------------------------------------------------------------------
// Grid builder
// ---------------------------------------------------------------------------

/// A sequence with the duplicates removed, keeping the first occurrence of
/// each character.
pub open spec fn dedup(s: Seq<char>) -> Seq<char>
    decreases s.len(),
{
    if s.len() == 0 {
        Seq::empty()
    } else {
        let d = dedup(s.drop_last());
        d + if d.contains(s.last()) {
            Seq::empty()
        } else {
            seq![s.last()]
        }
    }
}

/// The members of `base`, in order, that do not occur in `used`.
pub open spec fn missing_from(base: Seq<char>, used: Seq<char>) -> Seq<char>
    decreases base.len(),
{
    if base.len() == 0 {
        Seq::empty()
    } else {
        missing_from(base.drop_last(), used) + if used.contains(base.last()) {
            Seq::empty()
        } else {
            seq![base.last()]
        }
    }
}

/// The distinct letters the keyword contributes, in first-occurrence order.
pub open spec fn key_letters(keyword: Seq<char>) -> Seq<char> {
    dedup(normalize(keyword))
}

/// The key square built from a keyword, as a row-major sequence of 25
/// cells: the keyword's letters first, then the rest of the alphabet in
/// canonical order.
pub open spec fn grid_spec(keyword: Seq<char>) -> Seq<char> {
    key_letters(keyword) + missing_from(alphabet(), key_letters(keyword))
}

/// No character occurs twice.
pub open spec fn distinct(s: Seq<char>) -> bool {
    forall|i: int, j: int| 0 <= i < j < s.len() ==> s[i] != s[j]
}

/// A well-formed key square: 25 cells, no repeats, and every member of the
/// alphabet present.
pub open spec fn wf_grid(g: Seq<char>) -> bool {
    &&& g.len() == 25
    &&& distinct(g)
    &&& forall|i: int| 0 <= i < 25 ==> is_grid_char(#[trigger] g[i])
    &&& forall|c: char| is_grid_char(c) ==> g.contains(c)
}

proof fn lemma_dedup(s: Seq<char>)
    ensures
        distinct(dedup(s)),
        forall|c: char| dedup(s).contains(c) <==> s.contains(c),
    decreases s.len(),
{
    if s.len() > 0 {
        lemma_dedup(s.drop_last());
        let d = dedup(s.drop_last());
        assert forall|c: char| dedup(s).contains(c) <==> s.contains(c) by {
            assert(s.contains(c) <==> s.drop_last().contains(c) || s.last() == c) by {
                if s.contains(c) {
                    let i = choose|i: int| 0 <= i < s.len() && s[i] == c;
                    if i < s.len() - 1 {
                        assert(s.drop_last()[i] == c);
                    }
                }
                if s.drop_last().contains(c) {
                    let i = choose|i: int| 0 <= i < s.drop_last().len() && s.drop_last()[i] == c;
                    assert(s[i] == c);
                }
                if s.last() == c {
                    assert(s[s.len() - 1] == c);
                }
            }
            if dedup(s).contains(c) {
                let i = choose|i: int| 0 <= i < dedup(s).len() && dedup(s)[i] == c;
                if i < d.len() {
                    assert(d[i] == c);
                } else {
                    assert(dedup(s)[i] == s.last());
                }
            }
            if d.contains(c) {
                let i = choose|i: int| 0 <= i < d.len() && d[i] == c;
                assert(dedup(s)[i] == c);
            }
            if !d.contains(s.last()) && s.last() == c {
                assert(dedup(s)[d.len() as int] == c);
            }
        }
        if !d.contains(s.last()) {
            assert forall|i: int, j: int| 0 <= i < j < dedup(s).len() implies dedup(s)[i]
                != dedup(s)[j] by {
                if j < d.len() {
                    assert(d[i] != d[j]);
                } else {
                    assert(dedup(s)[j] == s.last());
                    assert(dedup(s)[i] == d[i]);
                    assert(!d.contains(s.last()));
                    assert(d[i] != s.last());
                }
            }
        }
    }
}

proof fn lemma_missing(base: Seq<char>, used: Seq<char>)
    requires
        distinct(base),
    ensures
        distinct(missing_from(base, used)),
        forall|c: char|
            missing_from(base, used).contains(c) <==> base.contains(c) && !used.contains(c),
    decreases base.len(),
{
    if base.len() > 0 {
        assert(distinct(base.drop_last())) by {
            assert forall|i: int, j: int|
                0 <= i < j < base.drop_last().len() implies base.drop_last()[i]
                != base.drop_last()[j] by {
                assert(base[i] != base[j]);
            }
        }
        lemma_missing(base.drop_last(), used);
        let m = missing_from(base.drop_last(), used);
        assert forall|c: char|
            missing_from(base, used).contains(c) <==> base.contains(c) && !used.contains(c) by {
            assert(base.contains(c) <==> base.drop_last().contains(c) || base.last() == c) by {
                if base.contains(c) {
                    let i = choose|i: int| 0 <= i < base.len() && base[i] == c;
                    if i < base.len() - 1 {
                        assert(base.drop_last()[i] == c);
                    }
                }
                if base.drop_last().contains(c) {
                    let i = choose|i: int|
                        0 <= i < base.drop_last().len() && base.drop_last()[i] == c;
                    assert(base[i] == c);
                }
                if base.last() == c {
                    assert(base[base.len() - 1] == c);
                }
            }
            if missing_from(base, used).contains(c) {
                let i = choose|i: int|
                    0 <= i < missing_from(base, used).len() && missing_from(base, used)[i] == c;
                if i < m.len() {
                    assert(m[i] == c);
                } else {
                    assert(missing_from(base, used)[i] == base.last());
                }
            }
            if m.contains(c) {
                let i = choose|i: int| 0 <= i < m.len() && m[i] == c;
                assert(missing_from(base, used)[i] == c);
            }
            if !used.contains(base.last()) && base.last() == c {
                assert(missing_from(base, used)[m.len() as int] == c);
            }
        }
        if !used.contains(base.last()) {
            assert forall|i: int, j: int|
                0 <= i < j < missing_from(base, used).len() implies missing_from(base, used)[i]
                != missing_from(base, used)[j] by {
                if j < m.len() {
                    assert(m[i] != m[j]);
                } else {
                    assert(missing_from(base, used)[j] == base.last());
                    assert(missing_from(base, used)[i] == m[i]);
                    assert(m.contains(m[i]));
                    assert(base.drop_last().contains(m[i]));
                    let bi = choose|bi: int|
                        0 <= bi < base.drop_last().len() && base.drop_last()[bi] == m[i];
                    assert(base[bi] == m[i]);
                    assert(base[bi] != base.last());
                }
            }
        }
    }
}

/// How many characters of `s` equal `x`.
spec fn count_occ(s: Seq<char>, x: char) -> int
    decreases s.len(),
{
    if s.len() == 0 {
        0
    } else {
        count_occ(s.drop_last(), x) + if s.last() == x {
            1int
        } else {
            0int
        }
    }
}

/// How many characters of `base` occur in `used`.
spec fn count_in(base: Seq<char>, used: Seq<char>) -> int
    decreases base.len(),
{
    if base.len() == 0 {
        0
    } else {
        count_in(base.drop_last(), used) + if used.contains(base.last()) {
            1int
        } else {
            0int
        }
    }
}

proof fn lemma_missing_len(base: Seq<char>, used: Seq<char>)
    ensures
        missing_from(base, used).len() == base.len() - count_in(base, used),
        0 <= count_in(base, used) <= base.len(),
    decreases base.len(),
{
    if base.len() > 0 {
        lemma_missing_len(base.drop_last(), used);
    }
}

proof fn lemma_count_occ_distinct(s: Seq<char>, x: char)
    requires
        distinct(s),
    ensures
        s.contains(x) ==> count_occ(s, x) == 1,
        !s.contains(x) ==> count_occ(s, x) == 0,
    decreases s.len(),
{
    if s.len() > 0 {
        assert(distinct(s.drop_last())) by {
            assert forall|i: int, j: int| 0 <= i < j < s.drop_last().len() implies s.drop_last()[i]
                != s.drop_last()[j] by {
                assert(s[i] != s[j]);
            }
        }
        lemma_count_occ_distinct(s.drop_last(), x);
        assert(s.contains(x) <==> s.drop_last().contains(x) || s.last() == x) by {
            if s.contains(x) {
                let i = choose|i: int| 0 <= i < s.len() && s[i] == x;
                if i < s.len() - 1 {
                    assert(s.drop_last()[i] == x);
                }
            }
            if s.drop_last().contains(x) {
                let i = choose|i: int| 0 <= i < s.drop_last().len() && s.drop_last()[i] == x;
                assert(s[i] == x);
            }
            if s.last() == x {
                assert(s[s.len() - 1] == x);
            }
        }
        if s.last() == x && s.drop_last().contains(x) {
            let i = choose|i: int| 0 <= i < s.drop_last().len() && s.drop_last()[i] == x;
            assert(s[i] == s[s.len() - 1]);
            assert(false);
        }
    }
}

proof fn lemma_count_in_snoc(base: Seq<char>, used: Seq<char>, x: char)
    requires
        !used.contains(x),
    ensures
        count_in(base, used.push(x)) == count_in(base, used) + count_occ(base, x),
    decreases base.len(),
{
    if base.len() > 0 {
        lemma_count_in_snoc(base.drop_last(), used, x);
        let b = base.last();
        assert(used.push(x).contains(b) <==> used.contains(b) || b == x) by {
            if used.contains(b) {
                let i = choose|i: int| 0 <= i < used.len() && used[i] == b;
                assert(used.push(x)[i] == b);
            }
            if b == x {
                assert(used.push(x)[used.len() as int] == b);
            }
            if used.push(x).contains(b) {
                let i = choose|i: int| 0 <= i < used.push(x).len() && used.push(x)[i] == b;
                if i < used.len() {
                    assert(used[i] == b);
                }
            }
        }
    }
}

proof fn lemma_count_in_of_distinct_subset(base: Seq<char>, used: Seq<char>)
    requires
        distinct(base),
        distinct(used),
        forall|c: char| used.contains(c) ==> base.contains(c),
    ensures
        count_in(base, used) == used.len(),
    decreases used.len(),
{
    if used.len() == 0 {
        lemma_count_in_empty(base, used);
    } else {
        let u0 = used.drop_last();
        let x = used.last();
        assert(distinct(u0)) by {
            assert forall|i: int, j: int| 0 <= i < j < u0.len() implies u0[i] != u0[j] by {
                assert(used[i] != used[j]);
            }
        }
        assert(!u0.contains(x)) by {
            if u0.contains(x) {
                let i = choose|i: int| 0 <= i < u0.len() && u0[i] == x;
                assert(used[i] == used[used.len() - 1]);
                assert(false);
            }
        }
        assert forall|c: char| u0.contains(c) implies base.contains(c) by {
            let i = choose|i: int| 0 <= i < u0.len() && u0[i] == c;
            assert(used[i] == c);
            assert(used.contains(c));
        }
        lemma_count_in_of_distinct_subset(base, u0);
        lemma_count_in_snoc(base, u0, x);
        assert(used.contains(x)) by {
            assert(used[used.len() - 1] == x);
        }
        assert(base.contains(x));
        lemma_count_occ_distinct(base, x);
        assert(u0.push(x) =~= used);
    }
}

proof fn lemma_count_in_empty(base: Seq<char>, used: Seq<char>)
    requires
        used.len() == 0,
    ensures
        count_in(base, used) == 0,
    decreases base.len(),
{
    if base.len() > 0 {
        lemma_count_in_empty(base.drop_last(), used);
    }
}

/// The key square built from any keyword is a permutation of the alphabet:
/// 25 cells, no repeats, every member of the alphabet in some cell and
/// nothing else in any cell.
pub proof fn lemma_grid_is_permutation(keyword: Seq<char>)
    ensures
        wf_grid(grid_spec(keyword)),
        forall|c: char| grid_spec(keyword).contains(c) <==> is_grid_char(c),
{
    let key = key_letters(keyword);
    let rest = missing_from(alphabet(), key);
    let g = grid_spec(keyword);
    lemma_alphabet_members();
    lemma_normalize_grid_chars(keyword);
    lemma_dedup(normalize(keyword));
    assert(distinct(alphabet()));
    lemma_missing(alphabet(), key);

    // every key letter is a grid char and occurs in the alphabet
    assert forall|c: char| key.contains(c) implies is_grid_char(c) && alphabet().contains(c) by {
        assert(normalize(keyword).contains(c));
        let i = choose|i: int|
            0 <= i < normalize(keyword).len() && normalize(keyword)[i] == c;
        assert(is_grid_char(normalize(keyword)[i]));
    }

    // the two halves together hold each alphabet member exactly once
    assert forall|c: char| g.contains(c) implies is_grid_char(c) by {
        let i = choose|i: int| 0 <= i < g.len() && g[i] == c;
        if i < key.len() {
            assert(key[i] == c);
            assert(key.contains(c));
        } else {
            assert(g[i] == rest[i - key.len()]);
            assert(rest.contains(c));
        }
    }
    assert forall|c: char| is_grid_char(c) implies g.contains(c) by {
        if key.contains(c) {
            let i = choose|i: int| 0 <= i < key.len() && key[i] == c;
            assert(g[i] == c);
        } else {
            assert(alphabet().contains(c));
            assert(rest.contains(c));
            let i = choose|i: int| 0 <= i < rest.len() && rest[i] == c;
            assert(g[key.len() + i] == c);
        }
    }
    assert(distinct(g)) by {
        assert forall|i: int, j: int| 0 <= i < j < g.len() implies g[i] != g[j] by {
            if j < key.len() {
                assert(key[i] != key[j]);
            } else if i >= key.len() {
                assert(g[i] == rest[i - key.len()]);
                assert(g[j] == rest[j - key.len()]);
                assert(rest[i - key.len()] != rest[j - key.len()]);
            } else {
                assert(g[i] == key[i]);
                assert(g[j] == rest[j - key.len()]);
                assert(rest.contains(rest[j - key.len()]));
                assert(key.contains(key[i]));
                assert(!key.contains(rest[j - key.len()]));
            }
        }
    }
    // counting: the square has exactly 25 cells
    lemma_missing_len(alphabet(), key);
    assert forall|c: char| key.contains(c) implies alphabet().contains(c) by {
        assert(normalize(keyword).contains(c));
        let i = choose|i: int| 0 <= i < normalize(keyword).len() && normalize(keyword)[i] == c;
        assert(is_grid_char(normalize(keyword)[i]));
    }
    lemma_count_in_of_distinct_subset(alphabet(), key);
    assert(g.len() == key.len() + rest.len());
}

/// A 5x5 key square, stored row-major.
pub struct KeySquare {
    pub cells: Vec<char>,
}

impl View for KeySquare {
    type V = Seq<char>;

    open spec fn view(&self) -> Seq<char> {
        self.cells@
    }
}

/// Whether a vector of characters contains a character.
fn contains_char(v: &Vec<char>, c: char) -> (r: bool)
    ensures
        r == v@.contains(c),
{
    let mut i: usize = 0;
    while i < v.len()
        invariant
            i <= v@.len(),
            forall|j: int| 0 <= j < i ==> v@[j] != c,
        decreases v@.len() - i,
    {
        if v[i] == c {
            return true;
        }
        i = i + 1;
    }
    false
}

/// The alphabet letter at an index, as executable code.
fn letter_at(i: usize) -> (c: char)
    requires
        i < 25,
    ensures
        c == letter(i as int),
{
    if i < 9 {
        ((65 + i) as u8) as char
    } else {
        ((66 + i) as u8) as char
    }
}

/// Creates the 5x5 key square for the Playfair cipher from the given
/// keyword: the keyword's normalised letters first, without repeats, then
/// the remaining letters of the alphabet in canonical order.
pub fn create_matrix(keyword: &str) -> (m: KeySquare)
    ensures
        m@ == grid_spec(keyword@),
        wf_grid(m@),
{
    let norm = normalize_str(keyword);
    let mut key_chars: Vec<char> = Vec::new();
    let mut i: usize = 0;
    while i < norm.len()
        invariant
            norm@ == normalize(keyword@),
            i <= norm@.len(),
            key_chars@ == dedup(norm@.take(i as int)),
        decreases norm@.len() - i,
    {
        proof {
            assert(norm@.take(i + 1).drop_last() =~= norm@.take(i as int));
            assert(norm@.take(i + 1).last() == norm@[i as int]);
        }
        if !contains_char(&key_chars, norm[i]) {
            key_chars.push(norm[i]);
            proof {
                assert(key_chars@ =~= dedup(norm@.take(i + 1)));
            }
        } else {
            proof {
                assert(key_chars@ =~= dedup(norm@.take(i + 1)));
            }
        }
        i = i + 1;
    }
    proof {
        assert(norm@.take(norm@.len() as int) =~= norm@);
    }
    let mut rest: Vec<char> = Vec::new();
    let mut k: usize = 0;
    while k < 25
        invariant
            key_chars@ == key_letters(keyword@),
            k <= 25,
            rest@ == missing_from(alphabet().take(k as int), key_chars@),
        decreases 25 - k,
    {
        proof {
            assert(alphabet().take(k + 1).drop_last() =~= alphabet().take(k as int));
            assert(alphabet().take(k + 1).last() == letter(k as int));
        }
        let c = letter_at(k);
        if !contains_char(&key_chars, c) {
            rest.push(c);
            proof {
                assert(rest@ =~= missing_from(alphabet().take(k + 1), key_chars@));
            }
        } else {
            proof {
                assert(rest@ =~= missing_from(alphabet().take(k + 1), key_chars@));
            }
        }
        k = k + 1;
    }
    proof {
        assert(alphabet().take(25) =~= alphabet());
    }
    let mut cells = key_chars;
    cells.append(&mut rest);
    proof {
        lemma_grid_is_permutation(keyword@);
    }
    KeySquare { cells }
}

/// The key square building rule is a function of the keyword alone: two
/// squares built from the same keyword are identical, cell for cell.
pub proof fn lemma_grid_deterministic(g1: Seq<char>, g2: Seq<char>, keyword: Seq<char>)
    requires
        g1 == grid_spec(keyword),
        g2 == grid_spec(keyword),
    ensures
        g1 == g2,
{
}

/// Finds the position of a character in the square.
///
/// Returns the row and column of the character, or `CharNotFound` for any
/// character outside the square's alphabet.
pub fn find_position(square: &KeySquare, ch: char) -> (r: Result<(usize, usize), PlayfairError>)
    requires
        wf_grid(square@),
    ensures
        is_grid_char(ch) ==> (r matches Ok(p) && p.0 < 5 && p.1 < 5 && square@[p.0 * 5 + p.1]
            == ch),
        !is_grid_char(ch) ==> r == Err::<(usize, usize), PlayfairError>(
            PlayfairError::CharNotFound,
        ),
{
    let mut i: usize = 0;
    while i < 25
        invariant
            wf_grid(square@),
            i <= 25,
            square.cells@.len() == 25,
            forall|j: int| 0 <= j < i ==> square@[j] != ch,
        decreases 25 - i,
    {
        if square.cells[i] == ch {
            proof {
                vstd::arithmetic::div_mod::lemma_fundamental_div_mod(i as int, 5);
                assert((i as int) / 5 * 5 + (i as int) % 5 == i as int);
                assert(0 <= (i as int) % 5 < 5) by {
                    vstd::arithmetic::div_mod::lemma_mod_bound(i as int, 5);
                }
                assert((i as int) / 5 < 5) by {
                    if (i as int) / 5 >= 5 {
                        assert((i as int) / 5 * 5 >= 25) by (nonlinear_arith)
                            requires
                                (i as int) / 5 >= 5,
                        ;
                    }
                }
                assert(square@.contains(ch)) by {
                    assert(square@[i as int] == ch);
                }
            }
            return Ok((i / 5, i % 5));
        }
        i = i + 1;
    }
    proof {
        if is_grid_char(ch) {
            assert(square@.contains(ch));
            let j = choose|j: int| 0 <= j < square@.len() && square@[j] == ch;
            assert(false);
        }
    }
    Err(PlayfairError::CharNotFound)
}

// ---------------------------------------------------------------------------
// Digraph segmenter
// ---------------------------------------------------------------------------

/// The filler letter inserted next to `c`: 'X', or 'Q' when the letter to
/// pad is itself 'X', so that the filler never repeats its neighbour.
pub open spec fn filler(c: char) -> char {
    if c == 'X' {
        'Q'
    } else {
        'X'
    }
}

/// The digraphs of a normalised stream. A lone trailing letter is padded
/// with the filler; a doubled letter is broken up by emitting the filler
/// and keeping the second occurrence for the next digraph.
pub open spec fn segment(s: Seq<char>) -> Seq<(char, char)>
    decreases s.len(),
{
    if s.len() == 0 {
        Seq::empty()
    } else if s.len() == 1 {
        seq![(s[0], filler(s[0]))]
    } else if s[1] == s[0] {
        seq![(s[0], filler(s[0]))] + segment(s.skip(1))
    } else {
        seq![(s[0], s[1])] + segment(s.skip(2))
    }
}

/// Both letters of every digraph of a stream over the alphabet are again
/// members of the alphabet.
pub proof fn lemma_segment_grid_chars(s: Seq<char>)
    requires
        forall|i: int| 0 <= i < s.len() ==> is_grid_char(#[trigger] s[i]),
    ensures
        forall|k: int|
            0 <= k < segment(s).len() ==> is_grid_char(#[trigger] segment(s)[k].0) && is_grid_char(
                segment(s)[k].1,
            ),
    decreases s.len(),
{
    if s.len() == 0 {
    } else if s.len() == 1 {
        assert(is_grid_char(s[0]));
    } else if s[1] == s[0] {
        lemma_segment_grid_chars(s.skip(1));
        assert forall|k: int|
            0 <= k < segment(s).len() implies is_grid_char(#[trigger] segment(s)[k].0)
            && is_grid_char(segment(s)[k].1) by {
            if k > 0 {
                assert(segment(s)[k] == segment(s.skip(1))[k - 1]);
            }
        }
    } else {
        lemma_segment_grid_chars(s.skip(2));
        assert forall|k: int|
            0 <= k < segment(s).len() implies is_grid_char(#[trigger] segment(s)[k].0)
            && is_grid_char(segment(s)[k].1) by {
            if k > 0 {
                assert(segment(s)[k] == segment(s.skip(2))[k - 1]);
            }
        }
    }
}

/// The filler letter, as executable code.
fn filler_for(c: char) -> (r: char)
    ensures
        r == filler(c),
{
    if c == 'X' {
        'Q'
    } else {
        'X'
    }
}

/// Creates the digraphs of a prepared (normalised) text.
///
/// Fails with `InvalidText` when the text holds no characters at all, so
/// that no digraph can be produced.
pub fn create_digraphs(text: &str) -> (r: Result<Vec<(char, char)>, PlayfairError>)
    ensures
        text@.len() == 0 ==> r == Err::<Vec<(char, char)>, PlayfairError>(
            PlayfairError::InvalidText,
        ),
        text@.len() > 0 ==> (r matches Ok(ds) && ds@ == segment(text@)),
{
    let chars = str_to_chars(text);
    let n = chars.len();
    if n == 0 {
        return Err(PlayfairError::InvalidText);
    }
    let mut digraphs: Vec<(char, char)> = Vec::new();
    let mut i: usize = 0;
    proof {
        assert(text@.skip(0) =~= text@);
        assert(digraphs@ + segment(text@) =~= segment(text@));
    }
    while i < n
        invariant
            chars@ == text@,
            n == chars@.len(),
            i <= n,
            segment(text@) == digraphs@ + segment(text@.skip(i as int)),
        decreases n - i,
    {
        let first = chars[i];
        proof {
            assert(text@.skip(i as int)[0] == text@[i as int]);
            if i + 1 < n {
                assert(text@.skip(i as int)[1] == text@[i + 1]);
            }
        }
        if i + 1 < n && chars[i + 1] != first {
            digraphs.push((first, chars[i + 1]));
            proof {
                assert(text@.skip(i as int).skip(2) =~= text@.skip(i + 2));
                assert(segment(text@.skip(i as int)) == seq![(text@[i as int], text@[i + 1])]
                    + segment(text@.skip(i + 2)));
                assert(digraphs@ + segment(text@.skip(i + 2)) =~= segment(text@));
            }
            i = i + 2;
        } else {
            digraphs.push((first, filler_for(first)));
            proof {
                if i + 1 < n {
                    assert(text@.skip(i as int).skip(1) =~= text@.skip(i + 1));
                    assert(segment(text@.skip(i as int)) == seq![
                        (text@[i as int], filler(text@[i as int])),
                    ] + segment(text@.skip(i + 1)));
                } else {
                    assert(text@.skip(i as int).len() == 1);
                    assert(segment(text@.skip(i as int)) == seq![
                        (text@[i as int], filler(text@[i as int])),
                    ]);
                }
                assert(digraphs@ + segment(text@.skip(i + 1)) =~= segment(text@));
            }
            i = i + 1;
        }
    }
    proof {
        assert(text@.skip(i as int).len() == 0);
        assert(segment(text@.skip(i as int)) =~= Seq::<(char, char)>::empty());
        assert(digraphs@ =~= segment(text@));
    }
    Ok(digraphs)
}

// ---------------------------------------------------------------------------
// Transform engine
// ---------------------------------------------------------------------------

/// The first index at which a character occurs in a sequence (the
/// sequence's length when it does not occur).
pub open spec fn pos_of(g: Seq<char>, c: char) -> int
    decreases g.len(),
{
    if g.len() == 0 {
        0
    } else if g[0] == c {
        0
    } else {
        1 + pos_of(g.skip(1), c)
    }
}

/// The row of a letter in a row-major 5x5 square.
pub open spec fn row_of(g: Seq<char>, c: char) -> int {
    pos_of(g, c) / 5
}

/// The column of a letter in a row-major 5x5 square.
pub open spec fn col_of(g: Seq<char>, c: char) -> int {
    pos_of(g, c) % 5
}

/// A coordinate shifted along its row or column: forward by one when
/// encrypting, backward by one when decrypting, wrapping around modulo 5.
pub open spec fn shift(i: int, mode: Mode) -> int {
    match mode {
        Mode::Encrypt => (i + 1) % 5,
        Mode::Decrypt => (i + 4) % 5,
    }
}

/// One digraph moved through the square: letters sharing a row shift
/// their columns, letters sharing a column shift their rows, and letters
/// spanning a rectangle swap their column coordinates.
#[verifier::opaque]
pub open spec fn transform_pair(g: Seq<char>, mode: Mode, d: (char, char)) -> (char, char) {
    let r1 = row_of(g, d.0);
    let c1 = col_of(g, d.0);
    let r2 = row_of(g, d.1);
    let c2 = col_of(g, d.1);
    if r1 == r2 {
        (g[r1 * 5 + shift(c1, mode)], g[r2 * 5 + shift(c2, mode)])
    } else if c1 == c2 {
        (g[shift(r1, mode) * 5 + c1], g[shift(r2, mode) * 5 + c2])
    } else {
        (g[r1 * 5 + c2], g[r2 * 5 + c1])
    }
}

proof fn lemma_pos_of_found(g: Seq<char>, c: char)
    requires
        g.contains(c),
    ensures
        0 <= pos_of(g, c) < g.len(),
        g[pos_of(g, c)] == c,
    decreases g.len(),
{
    if g[0] == c {
    } else {
        assert(g.skip(1).contains(c)) by {
            let i = choose|i: int| 0 <= i < g.len() && g[i] == c;
            assert(g.skip(1)[i - 1] == c);
        }
        lemma_pos_of_found(g.skip(1), c);
        assert(g[pos_of(g, c)] == g.skip(1)[pos_of(g.skip(1), c)]);
    }
}

proof fn lemma_pos_of_index(g: Seq<char>, i: int)
    requires
        distinct(g),
        0 <= i < g.len(),
    ensures
        pos_of(g, g[i]) == i,
    decreases g.len(),
{
    if i == 0 {
    } else {
        assert(g[0] != g[i]);
        assert(distinct(g.skip(1))) by {
            assert forall|x: int, y: int| 0 <= x < y < g.skip(1).len() implies g.skip(1)[x]
                != g.skip(1)[y] by {
                assert(g[x + 1] != g[y + 1]);
            }
        }
        assert(g.skip(1)[i - 1] == g[i]);
        lemma_pos_of_index(g.skip(1), i - 1);
    }
}

/// The row and column of the letter held at a given cell.
proof fn lemma_cell_coords(g: Seq<char>, r: int, c: int)
    requires
        wf_grid(g),
        0 <= r < 5,
        0 <= c < 5,
    ensures
        g.contains(g[r * 5 + c]),
        row_of(g, g[r * 5 + c]) == r,
        col_of(g, g[r * 5 + c]) == c,
{
    assert(0 <= r * 5 + c < 25) by (nonlinear_arith)
        requires
            0 <= r < 5,
            0 <= c < 5,
    ;
    assert(g.contains(g[r * 5 + c]));
    lemma_pos_of_index(g, r * 5 + c);
    vstd::arithmetic::div_mod::lemma_fundamental_div_mod_converse(r * 5 + c, 5, r, c);
}

/// The shifted coordinate stays on the square, and shifting forward then
/// backward (or backward then forward) returns to the start.
proof fn lemma_shift_props(i: int, mode: Mode)
    requires
        0 <= i < 5,
    ensures
        0 <= shift(i, mode) < 5,
        shift(shift(i, Mode::Encrypt), Mode::Decrypt) == i,
        shift(shift(i, Mode::Decrypt), Mode::Encrypt) == i,
        forall|j: int| 0 <= j < 5 && j != i ==> shift(j, mode) != shift(i, mode),
{
}

/// Positions of a grid letter are on the square.
proof fn lemma_letter_coords(g: Seq<char>, a: char)
    requires
        wf_grid(g),
        is_grid_char(a),
    ensures
        0 <= row_of(g, a) < 5,
        0 <= col_of(g, a) < 5,
        g[row_of(g, a) * 5 + col_of(g, a)] == a,
{
    assert(g.contains(a));
    lemma_pos_of_found(g, a);
    let p = pos_of(g, a);
    vstd::arithmetic::div_mod::lemma_fundamental_div_mod(p, 5);
    vstd::arithmetic::div_mod::lemma_mod_bound(p, 5);
    assert(p / 5 < 5) by {
        if p / 5 >= 5 {
            assert(p / 5 * 5 >= 25) by (nonlinear_arith)
                requires
                    p / 5 >= 5,
            ;
        }
    }
    assert(p / 5 >= 0) by {
        if p / 5 < 0 {
            assert(p / 5 * 5 <= -5) by (nonlinear_arith)
                requires
                    p / 5 <= -1,
            ;
        }
    }
}

/// The transformed digraph of two distinct grid letters: both output
/// letters are grid letters, they differ from one another, and applying
/// the opposite mode brings the original digraph back.
pub proof fn lemma_transform_round_trip(g: Seq<char>, d: (char, char))
    requires
        wf_grid(g),
        is_grid_char(d.0),
        is_grid_char(d.1),
        d.0 != d.1,
    ensures
        ({
            let e = transform_pair(g, Mode::Encrypt, d);
            &&& is_grid_char(e.0)
            &&& is_grid_char(e.1)
            &&& e.0 != e.1
            &&& transform_pair(g, Mode::Decrypt, e) == d
        }),
{
    lemma_transform_involution(g, d, Mode::Encrypt, Mode::Decrypt);
}

/// The common shape of the round trip in both directions.
proof fn lemma_transform_involution(g: Seq<char>, d: (char, char), m1: Mode, m2: Mode)
    requires
        wf_grid(g),
        is_grid_char(d.0),
        is_grid_char(d.1),
        d.0 != d.1,
        m1 != m2,
    ensures
        ({
            let e = transform_pair(g, m1, d);
            &&& is_grid_char(e.0)
            &&& is_grid_char(e.1)
            &&& e.0 != e.1
            &&& transform_pair(g, m2, e) == d
        }),
{
    reveal(transform_pair);
    let r1 = row_of(g, d.0);
    let c1 = col_of(g, d.0);
    let r2 = row_of(g, d.1);
    let c2 = col_of(g, d.1);
    lemma_letter_coords(g, d.0);
    lemma_letter_coords(g, d.1);
    assert((r1, c1) != (r2, c2)) by {
        if r1 == r2 && c1 == c2 {
            assert(d.0 == d.1);
        }
    }
    let e = transform_pair(g, m1, d);
    if r1 == r2 {
        assert(c1 != c2);
        lemma_shift_props(c1, m1);
        lemma_shift_props(c2, m1);
        lemma_cell_coords(g, r1, shift(c1, m1));
        lemma_cell_coords(g, r2, shift(c2, m1));
        assert(shift(c1, m1) != shift(c2, m1));
        assert(e.0 != e.1) by {
            assert(r1 * 5 + shift(c1, m1) != r2 * 5 + shift(c2, m1));
            assert(distinct(g));
        }
        assert(transform_pair(g, m2, e) == d) by {
            assert(row_of(g, e.0) == r1 && col_of(g, e.0) == shift(c1, m1));
            assert(row_of(g, e.1) == r2 && col_of(g, e.1) == shift(c2, m1));
            assert(shift(shift(c1, m1), m2) == c1 && shift(shift(c2, m1), m2) == c2) by {
                lemma_shift_props(shift(c1, m1), m2);
                lemma_shift_props(shift(c2, m1), m2);
            }
            assert(g[r1 * 5 + c1] == d.0 && g[r2 * 5 + c2] == d.1);
        }
        assert(is_grid_char(e.0) && is_grid_char(e.1)) by {
            assert(g.contains(e.0) && g.contains(e.1));
            let i = choose|i: int| 0 <= i < g.len() && g[i] == e.0;
            let j = choose|j: int| 0 <= j < g.len() && g[j] == e.1;
        }
    } else if c1 == c2 {
        assert(r1 != r2);
        lemma_shift_props(r1, m1);
        lemma_shift_props(r2, m1);
        lemma_cell_coords(g, shift(r1, m1), c1);
        lemma_cell_coords(g, shift(r2, m1), c2);
        assert(shift(r1, m1) != shift(r2, m1));
        assert(e.0 != e.1) by {
            assert(shift(r1, m1) * 5 + c1 != shift(r2, m1) * 5 + c2) by (nonlinear_arith)
                requires
                    c1 == c2,
                    shift(r1, m1) != shift(r2, m1),
            ;
            assert(distinct(g));
        }
        assert(transform_pair(g, m2, e) == d) by {
            assert(row_of(g, e.0) == shift(r1, m1) && col_of(g, e.0) == c1);
            assert(row_of(g, e.1) == shift(r2, m1) && col_of(g, e.1) == c2);
            assert(row_of(g, e.0) != row_of(g, e.1));
            assert(shift(shift(r1, m1), m2) == r1 && shift(shift(r2, m1), m2) == r2) by {
                lemma_shift_props(shift(r1, m1), m2);
                lemma_shift_props(shift(r2, m1), m2);
            }
            assert(g[r1 * 5 + c1] == d.0 && g[r2 * 5 + c2] == d.1);
        }
        assert(is_grid_char(e.0) && is_grid_char(e.1)) by {
            assert(g.contains(e.0) && g.contains(e.1));
            let i = choose|i: int| 0 <= i < g.len() && g[i] == e.0;
            let j = choose|j: int| 0 <= j < g.len() && g[j] == e.1;
        }
    } else {
        lemma_cell_coords(g, r1, c2);
        lemma_cell_coords(g, r2, c1);
        assert(e.0 != e.1) by {
            assert(r1 * 5 + c2 != r2 * 5 + c1) by (nonlinear_arith)
                requires
                    r1 != r2,
                    0 <= c1 < 5,
                    0 <= c2 < 5,
                    0 <= r1,
                    0 <= r2,
            ;
            assert(distinct(g));
        }
        assert(transform_pair(g, m2, e) == d) by {
            assert(row_of(g, e.0) == r1 && col_of(g, e.0) == c2);
            assert(row_of(g, e.1) == r2 && col_of(g, e.1) == c1);
            assert(g[r1 * 5 + c1] == d.0 && g[r2 * 5 + c2] == d.1);
        }
        assert(is_grid_char(e.0) && is_grid_char(e.1)) by {
            assert(g.contains(e.0) && g.contains(e.1));
            let i = choose|i: int| 0 <= i < g.len() && g[i] == e.0;
            let j = choose|j: int| 0 <= j < g.len() && g[j] == e.1;
        }
    }
}

/// The rectangle rule is its own inverse: a digraph whose letters share
/// neither row nor column comes back unchanged after two transformations,
/// whatever the mode of each.
pub proof fn lemma_rectangle_self_inverse(g: Seq<char>, m1: Mode, m2: Mode, d: (char, char))
    requires
        wf_grid(g),
        is_grid_char(d.0),
        is_grid_char(d.1),
        row_of(g, d.0) != row_of(g, d.1),
        col_of(g, d.0) != col_of(g, d.1),
    ensures
        transform_pair(g, m2, transform_pair(g, m1, d)) == d,
{
    reveal(transform_pair);
    let r1 = row_of(g, d.0);
    let c1 = col_of(g, d.0);
    let r2 = row_of(g, d.1);
    let c2 = col_of(g, d.1);
    lemma_letter_coords(g, d.0);
    lemma_letter_coords(g, d.1);
    lemma_cell_coords(g, r1, c2);
    lemma_cell_coords(g, r2, c1);
    let e = transform_pair(g, m1, d);
    assert(row_of(g, e.0) == r1 && col_of(g, e.0) == c2);
    assert(row_of(g, e.1) == r2 && col_of(g, e.1) == c1);
    assert(g[r1 * 5 + c1] == d.0 && g[r2 * 5 + c2] == d.1);
}

/// Processes a single digraph according to the Playfair rules.
///
/// Returns the transformed pair for letters of the square, and
/// `CharNotFound` when either letter lies outside the square's alphabet.
pub fn process_digraph(square: &KeySquare, digraph: &(char, char), mode: &Mode) -> (r: Result<
    (char, char),
    PlayfairError,
>)
    requires
        wf_grid(square@),
    ensures
        is_grid_char(digraph.0) && is_grid_char(digraph.1) ==> r == Ok::<
            (char, char),
            PlayfairError,
        >(transform_pair(square@, *mode, *digraph)),
        !(is_grid_char(digraph.0) && is_grid_char(digraph.1)) ==> r == Err::<
            (char, char),
            PlayfairError,
        >(PlayfairError::CharNotFound),
{
    let (x1, y1) = match find_position(square, digraph.0) {
        Ok(p) => p,
        Err(e) => {
            return Err(e);
        },
    };
    let (x2, y2) = match find_position(square, digraph.1) {
        Ok(p) => p,
        Err(e) => {
            return Err(e);
        },
    };
    proof {
        reveal(transform_pair);
        lemma_cell_coords(square@, x1 as int, y1 as int);
        lemma_cell_coords(square@, x2 as int, y2 as int);
    }
    let g = &square.cells;
    if x1 == x2 {
        let new_y1 = match mode {
            Mode::Encrypt => (y1 + 1) % 5,
            Mode::Decrypt => (y1 + 4) % 5,
        };
        let new_y2 = match mode {
            Mode::Encrypt => (y2 + 1) % 5,
            Mode::Decrypt => (y2 + 4) % 5,
        };
        Ok((g[x1 * 5 + new_y1], g[x2 * 5 + new_y2]))
    } else if y1 == y2 {
        let new_x1 = match mode {
            Mode::Encrypt => (x1 + 1) % 5,
            Mode::Decrypt => (x1 + 4) % 5,
        };
        let new_x2 = match mode {
            Mode::Encrypt => (x2 + 1) % 5,
            Mode::Decrypt => (x2 + 4) % 5,
        };
        Ok((g[new_x1 * 5 + y1], g[new_x2 * 5 + y2]))
    } else {
        Ok((g[x1 * 5 + y2], g[x2 * 5 + y1]))
    }
}

// ---------------------------------------------------------------------------
// Pipeline
// ---------------------------------------------------------------------------

/// All digraphs moved through the square and flattened back into a
/// character stream.
pub open spec fn transform_all(g: Seq<char>, mode: Mode, ds: Seq<(char, char)>) -> Seq<char>
    decreases ds.len(),
{
    if ds.len() == 0 {
        Seq::empty()
    } else {
        let t = transform_pair(g, mode, ds[0]);
        seq![t.0, t.1] + transform_all(g, mode, ds.skip(1))
    }
}

/// What the cipher produces once the emptiness checks have passed: the
/// normalised text, segmented into digraphs, each moved through the
/// keyword's square, and reassembled in order.
pub open spec fn cipher_spec(mode: Mode, keyword: Seq<char>, text: Seq<char>) -> Seq<char> {
    transform_all(grid_spec(keyword), mode, segment(normalize(text)))
}

/// Encrypts or decrypts a text with the square keyed by `keyword`.
///
/// Fails with `EmptyInput` when the keyword or the text is empty, and with
/// `InvalidText` when normalisation leaves nothing of the text; otherwise
/// the result is exactly `cipher_spec` for the chosen mode.
fn playfair_cipher(mode: Mode, keyword: &str, text: &str) -> (r: Result<String, PlayfairError>)
    ensures
        keyword@.len() == 0 || text@.len() == 0 ==> r == Err::<String, PlayfairError>(
            PlayfairError::EmptyInput,
        ),
        keyword@.len() > 0 && text@.len() > 0 && normalize(text@).len() == 0 ==> r == Err::<
            String,
            PlayfairError,
        >(PlayfairError::InvalidText),
        keyword@.len() > 0 && text@.len() > 0 && normalize(text@).len() > 0 ==> (r matches Ok(s)
            && s@ == cipher_spec(mode, keyword@, text@)),
{
    if keyword.is_empty() || text.is_empty() {
        return Err(PlayfairError::EmptyInput);
    }
    let square = create_matrix(keyword);
    let prepared = prepare_text(text);
    let digraphs = match create_digraphs(prepared.as_str()) {
        Ok(ds) => ds,
        Err(e) => {
            return Err(e);
        },
    };
    proof {
        lemma_normalize_grid_chars(text@);
        lemma_segment_grid_chars(normalize(text@));
    }
    let ghost g = square@;
    let ghost ds = digraphs@;
    let mut out: Vec<char> = Vec::new();
    let mut k: usize = 0;
    proof {
        assert(ds.skip(0) =~= ds);
        assert(out@ + transform_all(g, mode, ds) =~= transform_all(g, mode, ds));
    }
    while k < digraphs.len()
        invariant
            wf_grid(g),
            square@ == g,
            ds == digraphs@,
            ds == segment(normalize(text@)),
            forall|j: int|
                0 <= j < ds.len() ==> is_grid_char(#[trigger] ds[j].0) && is_grid_char(ds[j].1),
            k <= ds.len(),
            transform_all(g, mode, ds) == out@ + transform_all(g, mode, ds.skip(k as int)),
        decreases ds.len() - k,
    {
        proof {
            assert(ds.skip(k as int)[0] == ds[k as int]);
            assert(is_grid_char(ds[k as int].0) && is_grid_char(ds[k as int].1));
        }
        let pair = match process_digraph(&square, &digraphs[k], &mode) {
            Ok(p) => p,
            Err(_) => {
                proof {
                    assert(false);
                }
                return Err(PlayfairError::CharNotFound);
            },
        };
        out.push(pair.0);
        out.push(pair.1);
        proof {
            assert(ds.skip(k as int).skip(1) =~= ds.skip(k + 1));
            assert(transform_all(g, mode, ds.skip(k as int)) == seq![pair.0, pair.1]
                + transform_all(g, mode, ds.skip(k + 1)));
            assert(out@ + transform_all(g, mode, ds.skip(k + 1)) =~= transform_all(g, mode, ds));
        }
        k = k + 1;
    }
    proof {
        assert(ds.skip(ds.len() as int).len() == 0);
        assert(out@ =~= transform_all(g, mode, ds));
    }
    Ok(chars_to_string(&out))
}

/// Encrypts a plaintext with the Playfair cipher, keyed by `keyword`.
pub fn encrypt(keyword: &str, text: &str) -> (r: Result<String, PlayfairError>)
    ensures
        keyword@.len() == 0 || text@.len() == 0 ==> r == Err::<String, PlayfairError>(
            PlayfairError::EmptyInput,
        ),
        keyword@.len() > 0 && text@.len() > 0 && normalize(text@).len() == 0 ==> r == Err::<
            String,
            PlayfairError,
        >(PlayfairError::InvalidText),
        keyword@.len() > 0 && text@.len() > 0 && normalize(text@).len() > 0 ==> (r matches Ok(s)
            && s@ == cipher_spec(Mode::Encrypt, keyword@, text@)),
{
    playfair_cipher(Mode::Encrypt, keyword, text)
}

/// Decrypts a ciphertext with the Playfair cipher, keyed by `keyword`.
pub fn decrypt(keyword: &str, text: &str) -> (r: Result<String, PlayfairError>)
    ensures
        keyword@.len() == 0 || text@.len() == 0 ==> r == Err::<String, PlayfairError>(
            PlayfairError::EmptyInput,
        ),
        keyword@.len() > 0 && text@.len() > 0 && normalize(text@).len() == 0 ==> r == Err::<
            String,
            PlayfairError,
        >(PlayfairError::InvalidText),
        keyword@.len() > 0 && text@.len() > 0 && normalize(text@).len() > 0 ==> (r matches Ok(s)
            && s@ == cipher_spec(Mode::Decrypt, keyword@, text@)),
{
    playfair_cipher(Mode::Decrypt, keyword, text)
}

// ---------------------------------------------------------------------------
// Round trip
// ---------------------------------------------------------------------------

/// Text already in the cipher's canonical form, for which encoding and
/// decoding are exact inverses: non-empty, of even length, over the
/// square's alphabet, and with no two adjacent equal letters, so that
/// segmentation inserts no filler.
pub open spec fn well_formed(t: Seq<char>) -> bool {
    &&& t.len() > 0
    &&& t.len() % 2 == 0
    &&& forall|i: int| 0 <= i < t.len() ==> is_grid_char(#[trigger] t[i])
    &&& forall|i: int| 0 <= i < t.len() - 1 ==> #[trigger] t[i] != t[i + 1]
}

/// Unfolds `transform_all` over an explicit head.
proof fn lemma_transform_all_cons(g: Seq<char>, mode: Mode, p: (char, char), ps: Seq<(char, char)>)
    ensures
        transform_all(g, mode, seq![p] + ps) == seq![
            transform_pair(g, mode, p).0,
            transform_pair(g, mode, p).1,
        ] + transform_all(g, mode, ps),
{
    assert((seq![p] + ps)[0] == p);
    assert((seq![p] + ps).skip(1) =~= ps);
    assert((seq![p] + ps).len() == 1 + ps.len());
}

/// Unfolds `segment` over a leading pair of distinct letters.
proof fn lemma_segment_cons(s: Seq<char>)
    requires
        s.len() >= 2,
        s[0] != s[1],
    ensures
        segment(s) == seq![(s[0], s[1])] + segment(s.skip(2)),
{
}

#[verifier::rlimit(100)]
proof fn lemma_round_trip_core(g: Seq<char>, t: Seq<char>)
    requires
        wf_grid(g),
        t.len() % 2 == 0,
        forall|i: int| 0 <= i < t.len() ==> is_grid_char(#[trigger] t[i]),
        forall|i: int| 0 <= i < t.len() - 1 ==> #[trigger] t[i] != t[i + 1],
    ensures
        ({
            let ct = transform_all(g, Mode::Encrypt, segment(t));
            &&& ct.len() == t.len()
            &&& forall|i: int| 0 <= i < ct.len() ==> is_grid_char(#[trigger] ct[i])
            &&& transform_all(g, Mode::Decrypt, segment(ct)) == t
        }),
    decreases t.len(),
{
    if t.len() == 0 {
        assert(segment(t) =~= Seq::<(char, char)>::empty());
        let ct = transform_all(g, Mode::Encrypt, segment(t));
        assert(segment(ct) =~= Seq::<(char, char)>::empty());
    } else {
        let a = t[0];
        let b = t[1];
        assert(b != a);
        let tail = t.skip(2);
        assert(tail.len() % 2 == 0);
        assert forall|i: int| 0 <= i < tail.len() implies is_grid_char(#[trigger] tail[i]) by {
            assert(tail[i] == t[i + 2]);
        }
        assert forall|i: int| 0 <= i < tail.len() - 1 implies #[trigger] tail[i] != tail[i + 1] by {
            assert(tail[i] == t[i + 2] && tail[i + 1] == t[i + 3]);
        }
        lemma_round_trip_core(g, tail);
        let ps = segment(tail);
        lemma_segment_cons(t);
        assert(segment(t) == seq![(a, b)] + ps);
        let e = transform_pair(g, Mode::Encrypt, (a, b));
        lemma_transform_round_trip(g, (a, b));
        let ct_tail = transform_all(g, Mode::Encrypt, ps);
        lemma_transform_all_cons(g, Mode::Encrypt, (a, b), ps);
        let ct = transform_all(g, Mode::Encrypt, segment(t));
        assert(ct == seq![e.0, e.1] + ct_tail);
        assert(ct.len() == t.len());
        assert forall|i: int| 0 <= i < ct.len() implies is_grid_char(#[trigger] ct[i]) by {
            if i == 0 {
                assert(ct[i] == e.0);
            } else if i == 1 {
                assert(ct[i] == e.1);
            } else {
                assert(ct[i] == ct_tail[i - 2]);
            }
        }
        // decoding: the ciphertext segments back into the transformed pairs
        assert(ct[0] == e.0 && ct[1] == e.1);
        assert(e.1 != e.0);
        lemma_segment_cons(ct);
        assert(ct.skip(2) =~= ct_tail);
        assert(segment(ct) == seq![(e.0, e.1)] + segment(ct_tail));
        lemma_transform_all_cons(g, Mode::Decrypt, (e.0, e.1), segment(ct_tail));
        assert(transform_pair(g, Mode::Decrypt, (e.0, e.1)) == (a, b));
        assert(transform_all(g, Mode::Decrypt, segment(ct)) == seq![a, b] + transform_all(
            g,
            Mode::Decrypt,
            segment(ct_tail),
        ));
        assert(transform_all(g, Mode::Decrypt, segment(ct_tail)) == tail);
        assert(seq![a, b] + tail =~= t);
    }
}

/// Decoding inverts encoding on well-formed text: for every keyword and
/// every well-formed text, running the cipher forward and then backward
/// with the same keyword reproduces the text exactly. The intermediate
/// ciphertext is non-empty, over the square's alphabet, and of the same
/// length as the text.
pub proof fn lemma_encode_decode(keyword: Seq<char>, t: Seq<char>)
    requires
        well_formed(t),
    ensures
        ({
            let ct = cipher_spec(Mode::Encrypt, keyword, t);
            &&& ct.len() == t.len()
            &&& forall|i: int| 0 <= i < ct.len() ==> is_grid_char(#[trigger] ct[i])
            &&& normalize(ct) == ct
            &&& cipher_spec(Mode::Decrypt, keyword, ct) == t
        }),
{
    let g = grid_spec(keyword);
    lemma_grid_is_permutation(keyword);
    lemma_normalize_fixpoint(t);
    lemma_round_trip_core(g, t);
    let ct = cipher_spec(Mode::Encrypt, keyword, t);
    lemma_normalize_fixpoint(ct);
}

} // verus!

//! Identifier intake: splitting raw file content into candidate names,
//! validating identifier syntax, and case normalization.
//!
//! Reading the file itself is input/output and happens outside the crate;
//! the functions here take the content, or the raw names, as plain values.

use vstd::prelude::*;

use crate::chars::{check_name_char, check_space_char, is_name_char, is_space_char, lower_char,
    upper_char};

verus! {

broadcast use vstd::string::is_ascii_spec_bytes;

/// A name in title case: the first character upper-cased, the rest
/// lower-cased. Case mapping is defined on ASCII names only; a name with
/// any non-ASCII character is left unchanged.
pub open spec fn title_of(s: Seq<char>) -> Seq<char> {
    if vstd::utf8::is_ascii_chars(s) {
        Seq::new(
            s.len(),
            |i: int|
                if i == 0 {
                    upper_char(s[i])
                } else {
                    lower_char(s[i])
                },
        )
    } else {
        s
    }
}

/// A valid identifier: 3 to 16 characters, all of them ASCII letters,
/// digits or underscore.
pub open spec fn valid_name(s: Seq<char>) -> bool {
    3 <= s.len() <= 16 && forall|i: int| 0 <= i < s.len() ==> is_name_char(#[trigger] s[i])
}

/// Relies on `String::from_utf8`: a byte vector that is valid UTF-8 — and
/// every ASCII byte vector is, one character per byte — becomes the string
/// reading exactly those bytes.
#[verifier::external_body]
fn ascii_bytes_to_string(bytes: Vec<u8>) -> (r: Option<String>)
    requires
        forall|i: int| 0 <= i < bytes@.len() ==> bytes@[i] < 128,
    ensures
        r is Some,
        r matches Some(s) ==> s@.len() == bytes@.len() && (forall|i: int|
            0 <= i < s@.len() ==> s@[i] == bytes@[i] as char),
{
    String::from_utf8(bytes).ok()
}

/// Normalizes a name to title case, as [`title_of`] describes.
pub fn to_title(name: &str) -> (r: String)
    ensures
        r@ == title_of(name@),
{
    if !name.is_ascii() {
        return name.to_owned();
    }
    let bytes = name.as_bytes_vec();
    let n = bytes.len();
    let mut out: Vec<u8> = Vec::new();
    let mut i: usize = 0;
    while i < n
        invariant
            vstd::utf8::is_ascii_chars(name@),
            bytes@.len() == n == name@.len(),
            forall|j: int| 0 <= j < n ==> bytes@[j] == name@[j] as u8,
            i <= n,
            out@.len() == i,
            forall|j: int| 0 <= j < i ==> out@[j] == title_of(name@)[j] as u8,
            forall|j: int| 0 <= j < i ==> out@[j] < 128,
        decreases n - i,
    {
        let b = bytes[i];
        assert(b == name@[i as int] as u8);
        assert(name@[i as int] <= '\u{7f}');
        let mapped: u8 = if i == 0 {
            if 97 <= b && b <= 122 {
                b - 0x20
            } else {
                b
            }
        } else {
            if 65 <= b && b <= 90 {
                b + 0x20
            } else {
                b
            }
        };
        assert(mapped == title_of(name@)[i as int] as u8 && mapped < 128);
        out.push(mapped);
        i += 1;
    }
    let r = match ascii_bytes_to_string(out) {
        Some(s) => s,
        None => {
            proof {
                assert(false);
            }
            String::new()
        },
    };
    assert(r@ =~= title_of(name@));
    r
}

/// A sequence with its leading whitespace dropped.
pub open spec fn trim_front(s: Seq<char>) -> Seq<char>
    decreases s.len(),
{
    if s.len() > 0 && is_space_char(s.first()) {
        trim_front(s.drop_first())
    } else {
        s
    }
}

/// A sequence with its trailing whitespace dropped.
pub open spec fn trim_back(s: Seq<char>) -> Seq<char>
    decreases s.len(),
{
    if s.len() > 0 && is_space_char(s.last()) {
        trim_back(s.drop_last())
    } else {
        s
    }
}

/// A sequence with whitespace dropped from both ends.
pub open spec fn trim_of(s: Seq<char>) -> Seq<char> {
    trim_back(trim_front(s))
}

proof fn lemma_trim_front_subrange(s: Seq<char>, k: int)
    requires
        0 <= k <= s.len(),
        forall|j: int| 0 <= j < k ==> is_space_char(#[trigger] s[j]),
        k == s.len() || !is_space_char(s[k]),
    ensures
        trim_front(s) == s.subrange(k, s.len() as int),
    decreases k,
{
    if k == 0 {
        assert(trim_front(s) =~= s.subrange(0, s.len() as int));
    } else {
        let t = s.drop_first();
        lemma_trim_front_subrange(t, k - 1);
        assert(t.subrange(k - 1, t.len() as int) =~= s.subrange(k, s.len() as int));
    }
}

proof fn lemma_trim_back_subrange(s: Seq<char>, k: int)
    requires
        0 <= k <= s.len(),
        forall|j: int| k <= j < s.len() ==> is_space_char(#[trigger] s[j]),
        k == 0 || !is_space_char(s[k - 1]),
    ensures
        trim_back(s) == s.subrange(0, k),
    decreases s.len() - k,
{
    if k == s.len() {
        assert(trim_back(s) =~= s.subrange(0, k));
    } else {
        let t = s.drop_last();
        lemma_trim_back_subrange(t, k);
        assert(t.subrange(0, k) =~= s.subrange(0, k));
    }
}

/// Strips whitespace from both ends of a string, as [`trim_of`] describes.
pub fn trim_str(s: &str) -> (r: String)
    ensures
        r@ == trim_of(s@),
{
    let n = s.unicode_len();
    let mut start: usize = 0;
    while start < n && check_space_char(s.get_char(start))
        invariant
            n == s@.len(),
            start <= n,
            forall|j: int| 0 <= j < start ==> is_space_char(#[trigger] s@[j]),
        decreases n - start,
    {
        start += 1;
    }
    proof {
        lemma_trim_front_subrange(s@, start as int);
    }
    let mut end: usize = n;
    while end > start && check_space_char(s.get_char(end - 1))
        invariant
            n == s@.len(),
            start <= end <= n,
            forall|j: int| end <= j < n ==> is_space_char(#[trigger] s@[j]),
        decreases end,
    {
        end -= 1;
    }
    proof {
        let front = s@.subrange(start as int, n as int);
        lemma_trim_back_subrange(front, end - start);
        assert(front.subrange(0, end - start) =~= s@.subrange(start as int, end as int));
    }
    s.substring_char(start, end).to_owned()
}

/// The number of characters before the first line break.
pub open spec fn first_line_len(s: Seq<char>) -> nat
    decreases s.len(),
{
    if s.len() == 0 {
        0
    } else if s.first() == '\n' {
        0
    } else {
        1 + first_line_len(s.drop_first())
    }
}

/// The lines of a text: the pieces between line breaks, the break
/// characters themselves dropped, and no final empty piece when the text
/// ends with a break.
pub open spec fn lines_of(s: Seq<char>) -> Seq<Seq<char>>
    decreases s.len(),
{
    if s.len() == 0 {
        Seq::empty()
    } else {
        let k = first_line_len(s) as int;
        let line = s.subrange(0, k);
        if k >= s.len() {
            seq![line]
        } else {
            seq![line] + lines_of(s.subrange(k + 1, s.len() as int))
        }
    }
}

proof fn lemma_first_line_len_at(s: Seq<char>, k: int)
    requires
        0 <= k <= s.len(),
        forall|j: int| 0 <= j < k ==> s[j] != '\n',
        k == s.len() || s[k] == '\n',
    ensures
        first_line_len(s) == k,
    decreases k,
{
    if k > 0 {
        lemma_first_line_len_at(s.drop_first(), k - 1);
    }
}

/// Splits a text into its lines, as [`lines_of`] describes.
pub fn split_lines(content: &str) -> (r: Vec<String>)
    ensures
        r.deep_view() == lines_of(content@),
{
    let n = content.unicode_len();
    let mut result: Vec<String> = Vec::new();
    let mut pos: usize = 0;
    proof {
        assert(content@.subrange(0, n as int) =~= content@);
        assert(result.deep_view() =~= Seq::<Seq<char>>::empty());
        assert(Seq::<Seq<char>>::empty() + lines_of(content@) =~= lines_of(content@));
    }
    while pos < n
        invariant
            n == content@.len(),
            pos <= n,
            lines_of(content@) == result.deep_view() + lines_of(
                content@.subrange(pos as int, n as int),
            ),
        decreases n - pos,
    {
        let ghost prev = result.deep_view();
        let ghost rest = content@.subrange(pos as int, n as int);
        let mut j: usize = pos;
        while j < n && content.get_char(j) != '\n'
            invariant
                n == content@.len(),
                pos <= j <= n,
                forall|i: int| pos <= i < j ==> content@[i] != '\n',
            decreases n - j,
        {
            j += 1;
        }
        proof {
            lemma_first_line_len_at(rest, j - pos);
        }
        let line = content.substring_char(pos, j).to_owned();
        result.push(line);
        pos = if j < n {
            j + 1
        } else {
            j
        };
        proof {
            assert(rest.subrange(0, first_line_len(rest) as int) =~= content@.subrange(
                (j - first_line_len(rest)) as int,
                j as int,
            ));
            assert(result.deep_view() =~= prev + seq![line@]);
            if j < n {
                assert(rest.subrange(first_line_len(rest) as int + 1, rest.len() as int)
                    =~= content@.subrange(pos as int, n as int));
            }
            assert(lines_of(content@) =~= result.deep_view() + lines_of(
                content@.subrange(pos as int, n as int),
            ));
        }
    }
    proof {
        assert(lines_of(content@.subrange(pos as int, n as int)) =~= Seq::<Seq<char>>::empty());
        assert(lines_of(content@) =~= result.deep_view());
    }
    result
}

/// The sequence with every repetition of an earlier element removed: the
/// first occurrence of each element is kept, in order.
pub open spec fn dedup_of(s: Seq<Seq<char>>) -> Seq<Seq<char>>
    decreases s.len(),
{
    if s.len() == 0 {
        s
    } else {
        let rest = dedup_of(s.drop_last());
        if rest.contains(s.last()) {
            rest
        } else {
            rest.push(s.last())
        }
    }
}

/// Deduplication never invents nor loses elements: membership is preserved.
pub proof fn lemma_dedup_contains(s: Seq<Seq<char>>, x: Seq<char>)
    ensures
        dedup_of(s).contains(x) == s.contains(x),
    decreases s.len(),
{
    if s.len() > 0 {
        let dl = s.drop_last();
        let rest = dedup_of(dl);
        lemma_dedup_contains(dl, x);
        assert(s.contains(x) <==> dl.contains(x) || s.last() == x) by {
            if s.contains(x) {
                let i = choose|i: int| 0 <= i < s.len() && s[i] == x;
                if i < s.len() - 1 {
                    assert(dl[i] == x);
                }
            }
            if dl.contains(x) {
                let i = choose|i: int| 0 <= i < dl.len() && dl[i] == x;
                assert(s[i] == x);
            }
            if s.last() == x {
                assert(s[s.len() - 1] == x);
            }
        }
        if rest.contains(s.last()) {
        } else {
            let p = rest.push(s.last());
            assert(p.contains(x) <==> rest.contains(x) || s.last() == x) by {
                if rest.contains(x) {
                    let i = choose|i: int| 0 <= i < rest.len() && rest[i] == x;
                    assert(p[i] == x);
                }
                assert(p[p.len() - 1] == s.last());
                if p.contains(x) {
                    let i = choose|i: int| 0 <= i < p.len() && p[i] == x;
                    if i < p.len() - 1 {
                        assert(rest[i] == x);
                    }
                }
            }
        }
    }
}

/// The deduplicated sequence holds no element twice.
pub proof fn lemma_dedup_no_duplicates(s: Seq<Seq<char>>)
    ensures
        dedup_of(s).no_duplicates(),
    decreases s.len(),
{
    if s.len() > 0 {
        lemma_dedup_no_duplicates(s.drop_last());
    }
}

/// True when some element of `v` reads as `x`.
pub fn contains_name(v: &Vec<String>, x: &String) -> (r: bool)
    ensures
        r == v.deep_view().contains(x@),
{
    let n = v.len();
    let mut i: usize = 0;
    while i < n
        invariant
            n == v@.len(),
            i <= n,
            forall|j: int| 0 <= j < i ==> v.deep_view()[j] != x@,
        decreases n - i,
    {
        if v[i].eq(x) {
            assert(v.deep_view()[i as int] == x@);
            return true;
        }
        i += 1;
    }
    false
}

/// Extracts the candidate names from the content of an input file: one
/// name per line, whitespace stripped from both ends, duplicates dropped
/// (the first occurrence of each name is kept).
pub fn get_names(content: &str) -> (r: Vec<String>)
    ensures
        r.deep_view() == dedup_of(lines_of(content@).map_values(|l: Seq<char>| trim_of(l))),
        r.deep_view().no_duplicates(),
{
    let ghost trimmed = lines_of(content@).map_values(|l: Seq<char>| trim_of(l));
    let lines = split_lines(content);
    let n = lines.len();
    let mut result: Vec<String> = Vec::new();
    let mut i: usize = 0;
    while i < n
        invariant
            n == lines@.len(),
            i <= n,
            lines.deep_view() == lines_of(content@),
            trimmed == lines_of(content@).map_values(|l: Seq<char>| trim_of(l)),
            result.deep_view() == dedup_of(trimmed.take(i as int)),
        decreases n - i,
    {
        let ghost prev = result.deep_view();
        let name = trim_str(lines[i].as_str());
        assert(name@ == trimmed[i as int]);
        assert(trimmed.take(i + 1).drop_last() =~= trimmed.take(i as int));
        if !contains_name(&result, &name) {
            result.push(name);
            assert(result.deep_view() =~= prev.push(trimmed[i as int]));
        }
        i += 1;
    }
    proof {
        assert(trimmed.take(n as int) =~= trimmed);
        lemma_dedup_no_duplicates(trimmed);
    }
    result
}

/// True when the name is not a valid identifier, as [`valid_name`] describes.
pub fn is_invalid_predicate(name: &str) -> (r: bool)
    ensures
        r == !valid_name(name@),
{
    let n = name.unicode_len();
    if n < 3 || n > 16 {
        return true;
    }
    let mut i: usize = 0;
    while i < n
        invariant
            n == name@.len(),
            i <= n,
            forall|j: int| 0 <= j < i ==> is_name_char(#[trigger] name@[j]),
        decreases n - i,
    {
        if !check_name_char(name.get_char(i)) {
            return true;
        }
        i += 1;
    }
    false
}

/// The split of raw names into syntactically valid and invalid ones.
pub struct NameValidityData {
    pub valid_names: Vec<String>,
    pub invalid_names: Vec<String>,
}

/// The subsequence of valid identifiers, in order.
pub open spec fn valid_of(names: Seq<Seq<char>>) -> Seq<Seq<char>>
    decreases names.len(),
{
    if names.len() == 0 {
        names
    } else {
        let rest = valid_of(names.drop_last());
        if valid_name(names.last()) {
            rest.push(names.last())
        } else {
            rest
        }
    }
}

/// The subsequence of invalid names, in order.
pub open spec fn invalid_of(names: Seq<Seq<char>>) -> Seq<Seq<char>>
    decreases names.len(),
{
    if names.len() == 0 {
        names
    } else {
        let rest = invalid_of(names.drop_last());
        if valid_name(names.last()) {
            rest
        } else {
            rest.push(names.last())
        }
    }
}

/// Partitions names into syntactically valid and invalid ones, keeping
/// the original order within each class.
pub fn get_name_validity(names: Vec<String>) -> (r: NameValidityData)
    ensures
        r.valid_names.deep_view() == valid_of(names.deep_view()),
        r.invalid_names.deep_view() == invalid_of(names.deep_view()),
{
    let ghost dv = names.deep_view();
    let mut valid_names: Vec<String> = Vec::new();
    let mut invalid_names: Vec<String> = Vec::new();
    let n = names.len();
    let mut i: usize = 0;
    while i < n
        invariant
            n == names@.len(),
            i <= n,
            dv == names.deep_view(),
            valid_names.deep_view() == valid_of(dv.take(i as int)),
            invalid_names.deep_view() == invalid_of(dv.take(i as int)),
        decreases n - i,
    {
        let ghost pv = valid_names.deep_view();
        let ghost piv = invalid_names.deep_view();
        let name = names[i].clone();
        assert(name@ == dv[i as int]);
        if is_invalid_predicate(name.as_str()) {
            invalid_names.push(name);
            assert(invalid_names.deep_view() =~= piv.push(dv[i as int]));
        } else {
            valid_names.push(name);
            assert(valid_names.deep_view() =~= pv.push(dv[i as int]));
        }
        proof {
            assert(dv.take(i + 1) =~= dv.take(i as int).push(dv[i as int]));
            assert(dv.take(i + 1).drop_last() =~= dv.take(i as int));
        }
        i += 1;
    }
    proof {
        assert(dv.take(n as int) =~= dv);
    }
    NameValidityData { valid_names, invalid_names }
}

} // verus!

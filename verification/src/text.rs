//! String operations that the inspection logic relies on, each with the
//! meaning it has in contracts.

use vstd::prelude::*;
use vstd::string::StringExecFns;
use bevy::utils::prelude::ShortName;

verus! {

/// The lower-case form of a string, as `str::to_lowercase` computes it.
pub uninterp spec fn lowercase(s: Seq<char>) -> Seq<char>;

/// A string without its leading and trailing whitespace, as `str::trim` computes it.
pub uninterp spec fn trimmed(s: Seq<char>) -> Seq<char>;

/// A type path without its module prefixes, as `ShortName` prints it.
pub uninterp spec fn short_type_name(full: Seq<char>) -> Seq<char>;

/// `needle` occurs in `hay` as a contiguous run of characters.
pub open spec fn is_substring(needle: Seq<char>, hay: Seq<char>) -> bool {
    exists|i: int|
        0 <= i && i + needle.len() <= hay.len() && #[trigger] hay.subrange(i, i + needle.len())
            == needle
}

/// `a` comes before `b`, or equals it, in the lexicographic order of code points.
pub open spec fn text_le(a: Seq<char>, b: Seq<char>) -> bool
    decreases a.len(),
{
    if a.len() == 0 {
        true
    } else if b.len() == 0 {
        false
    } else if a[0] != b[0] {
        (a[0] as int) < (b[0] as int)
    } else {
        text_le(a.drop_first(), b.drop_first())
    }
}

/// The least of three numbers.
pub open spec fn min3(x: nat, y: nat, z: nat) -> nat {
    if x <= y && x <= z {
        x
    } else if y <= z {
        y
    } else {
        z
    }
}

/// The Levenshtein distance: the least number of single-character insertions,
/// deletions and substitutions that turn `a` into `b`.
pub open spec fn edit_distance(a: Seq<char>, b: Seq<char>) -> nat
    decreases a.len() + b.len(),
{
    if a.len() == 0 {
        b.len()
    } else if b.len() == 0 {
        a.len()
    } else {
        let keep: nat = if a.last() == b.last() { 0 } else { 1 };
        min3(
            edit_distance(a.drop_last(), b) + 1,
            edit_distance(a, b.drop_last()) + 1,
            edit_distance(a.drop_last(), b.drop_last()) + keep,
        )
    }
}

/// `text_le` is reflexive.
pub proof fn lemma_text_le_refl(a: Seq<char>)
    ensures
        text_le(a, a),
    decreases a.len(),
{
    if a.len() > 0 {
        lemma_text_le_refl(a.drop_first());
    }
}

/// `text_le` is antisymmetric.
pub proof fn lemma_text_le_antisym(a: Seq<char>, b: Seq<char>)
    requires
        text_le(a, b),
        text_le(b, a),
    ensures
        a == b,
    decreases a.len(),
{
    if a.len() == 0 {
        assert(b.len() == 0);
        assert(a =~= b);
    } else {
        lemma_text_le_antisym(a.drop_first(), b.drop_first());
        assert(a =~= seq![a[0]] + a.drop_first());
        assert(b =~= seq![b[0]] + b.drop_first());
    }
}

/// `text_le` is transitive.
pub proof fn lemma_text_le_trans(a: Seq<char>, b: Seq<char>, c: Seq<char>)
    requires
        text_le(a, b),
        text_le(b, c),
    ensures
        text_le(a, c),
    decreases a.len(),
{
    if a.len() > 0 && a[0] == b[0] && b[0] == c[0] {
        lemma_text_le_trans(a.drop_first(), b.drop_first(), c.drop_first());
    }
}

/// Any two strings are comparable by `text_le`.
pub proof fn lemma_text_le_total(a: Seq<char>, b: Seq<char>)
    ensures
        text_le(a, b) || text_le(b, a),
    decreases a.len(),
{
    if a.len() > 0 && b.len() > 0 {
        if a[0] == b[0] {
            lemma_text_le_total(a.drop_first(), b.drop_first());
        } else {
            assert(a[0] as int != b[0] as int);
        }
    }
}

/// The order of strings by `text_le`.
pub open spec fn text_order() -> spec_fn(Seq<char>, Seq<char>) -> bool {
    |a: Seq<char>, b: Seq<char>| text_le(a, b)
}

/// The order of strings is total.
pub proof fn lemma_text_order_total()
    ensures
        vstd::relations::total_ordering(text_order()),
{
    let leq = text_order();
    assert forall|x: Seq<char>| #[trigger] leq(x, x) by {
        lemma_text_le_refl(x);
    }
    assert forall|x: Seq<char>, y: Seq<char>| #[trigger] leq(x, y) && #[trigger] leq(
        y,
        x,
    ) implies x == y by {
        lemma_text_le_antisym(x, y);
    }
    assert forall|x: Seq<char>, y: Seq<char>, z: Seq<char>| #[trigger] leq(x, y) && #[trigger] leq(
        y,
        z,
    ) implies leq(x, z) by {
        lemma_text_le_trans(x, y, z);
    }
    assert forall|x: Seq<char>, y: Seq<char>| #[trigger] leq(x, y) || #[trigger] leq(y, x) by {
        lemma_text_le_total(x, y);
    }
}

/// The strings of a list as sequences of characters.
pub open spec fn texts(strings: Seq<String>) -> Seq<Seq<char>> {
    strings.map_values(|s: String| s@)
}

/// The strings of `names` in a row, with `separator` between each two.
pub open spec fn join_texts(names: Seq<Seq<char>>, separator: Seq<char>) -> Seq<char>
    decreases names.len(),
{
    if names.len() == 0 {
        Seq::empty()
    } else if names.len() == 1 {
        names[0]
    } else {
        join_texts(names.drop_last(), separator) + separator + names.last()
    }
}

/// Joins strings, with `separator` between each two.
pub fn join(names: &Vec<String>, separator: &str) -> (joined: String)
    ensures
        joined@ == join_texts(texts(names@), separator@),
{
    let mut joined = String::new();
    let mut i: usize = 0;
    let ghost all = texts(names@);
    assert(all.take(0) =~= Seq::<Seq<char>>::empty());
    while i < names.len()
        invariant
            i <= names.len(),
            all == texts(names@),
            joined@ == join_texts(all.take(i as int), separator@),
        decreases names.len() - i,
    {
        proof {
            assert(all.take(i as int + 1).drop_last() == all.take(i as int));
            assert(all.take(i as int + 1).last() == names@[i as int]@);
            if i == 0 {
                assert(joined@ + names@[0]@ =~= names@[0]@);
            }
        }
        if i > 0 {
            joined.append(separator);
        }
        joined.append(names[i].as_str());
        i += 1;
    }
    assert(all.take(names.len() as int) == all);
    joined
}

/// Sorts strings into the order of their code points.
pub fn sort_texts(names: Vec<String>) -> (sorted: Vec<String>)
    ensures
        texts(sorted@) == texts(names@).sort_by(text_order()),
{
    let ghost leq = text_order();
    let ghost input = texts(names@);
    proof {
        lemma_text_order_total();
    }
    let mut names = names;
    let mut sorted: Vec<String> = Vec::new();
    proof {
        broadcast use vstd::seq_lib::group_to_multiset_ensures;

        assert(texts(sorted@) =~= Seq::<Seq<char>>::empty());
        assert(texts(sorted@).to_multiset().len() == 0);
        assert(texts(sorted@).to_multiset().add(texts(names@).to_multiset())
            =~= input.to_multiset());
    }
    while names.len() > 0
        invariant
            leq == text_order(),
            vstd::relations::total_ordering(leq),
            vstd::relations::sorted_by(texts(sorted@), leq),
            texts(sorted@).to_multiset().add(texts(names@).to_multiset()) == input.to_multiset(),
        decreases names.len(),
    {
        let ghost before = texts(names@);
        let ghost done = texts(sorted@);
        let name = names.pop().unwrap();
        let mut pos: usize = 0;
        while pos < sorted.len() && text_le_exec(sorted[pos].as_str(), name.as_str())
            invariant
                pos <= sorted.len(),
                leq == text_order(),
                done == texts(sorted@),
                forall|k: int| 0 <= k < pos ==> #[trigger] leq(done[k], name@),
            decreases sorted.len() - pos,
        {
            assert(done[pos as int] == sorted@[pos as int]@);
            pos += 1;
        }
        proof {
            if pos < sorted.len() {
                assert(done[pos as int] == sorted@[pos as int]@);
                lemma_text_le_total(done[pos as int], name@);
                assert(leq(name@, done[pos as int]));
            }
            crate::sorting::lemma_insertion_step(done, pos as int, name@, leq);
            assert(before == texts(names@).push(name@));
            vstd::seq_lib::to_multiset_build(texts(names@), name@);
        }
        sorted.insert(pos, name);
        proof {
            assert(texts(sorted@) =~= done.insert(pos as int, name@));
            assert(texts(sorted@).to_multiset().add(texts(names@).to_multiset())
                =~= input.to_multiset());
        }
    }
    proof {
        assert(texts(names@) =~= Seq::<Seq<char>>::empty());
        assert(texts(names@).to_multiset() =~= vstd::multiset::Multiset::<Seq<char>>::empty()) by {
            broadcast use vstd::seq_lib::group_to_multiset_ensures;

            assert(texts(names@).to_multiset().len() == 0);
        }
        assert(texts(sorted@).to_multiset() =~= input.to_multiset());
        crate::sorting::lemma_sorted_is_sort(texts(sorted@), input, leq);
    }
    sorted
}

/// The character of a decimal digit.
pub open spec fn digit_char(digit: nat) -> char {
    if digit == 0 {
        '0'
    } else if digit == 1 {
        '1'
    } else if digit == 2 {
        '2'
    } else if digit == 3 {
        '3'
    } else if digit == 4 {
        '4'
    } else if digit == 5 {
        '5'
    } else if digit == 6 {
        '6'
    } else if digit == 7 {
        '7'
    } else if digit == 8 {
        '8'
    } else {
        '9'
    }
}

/// A number in decimal digits, without leading zeros.
pub open spec fn decimal_text(number: nat) -> Seq<char>
    decreases number,
{
    if number < 10 {
        seq![digit_char(number)]
    } else {
        decimal_text(number / 10).push(digit_char(number % 10))
    }
}

/// The text of a decimal digit.
fn digit_text(digit: u64) -> (text: &'static str)
    requires
        digit < 10,
    ensures
        text@ == seq![digit_char(digit as nat)],
{
    proof {
        reveal_strlit("0");
        reveal_strlit("1");
        reveal_strlit("2");
        reveal_strlit("3");
        reveal_strlit("4");
        reveal_strlit("5");
        reveal_strlit("6");
        reveal_strlit("7");
        reveal_strlit("8");
        reveal_strlit("9");
    }
    let text = if digit == 0 {
        "0"
    } else if digit == 1 {
        "1"
    } else if digit == 2 {
        "2"
    } else if digit == 3 {
        "3"
    } else if digit == 4 {
        "4"
    } else if digit == 5 {
        "5"
    } else if digit == 6 {
        "6"
    } else if digit == 7 {
        "7"
    } else if digit == 8 {
        "8"
    } else {
        "9"
    };
    assert(text@ =~= seq![digit_char(digit as nat)]);
    text
}

/// Writes a number in decimal digits.
pub fn decimal(number: u64) -> (text: String)
    ensures
        text@ == decimal_text(number as nat),
    decreases number,
{
    if number < 10 {
        String::from_str(digit_text(number))
    } else {
        let mut text = decimal(number / 10);
        text.append(digit_text(number % 10));
        assert(text@ =~= decimal_text(number as nat));
        text
    }
}

/// Calls `str::to_lowercase`; the result is what [`lowercase`] names.
#[verifier::external_body]
pub(crate) fn to_lowercase(s: &str) -> (out: String)
    ensures
        out@ == lowercase(s@),
{
    s.to_lowercase()
}

/// Calls `str::trim`; the result is what [`trimmed`] names.
#[verifier::external_body]
pub(crate) fn trim<'a>(s: &'a str) -> (out: &'a str)
    ensures
        out@ == trimmed(s@),
{
    s.trim()
}

/// Calls `str::contains` with a string pattern, which is true exactly when
/// the pattern occurs in the string as a substring.
#[verifier::external_body]
pub(crate) fn contains_text(hay: &str, needle: &str) -> (found: bool)
    ensures
        found == is_substring(needle@, hay@),
{
    hay.contains(needle)
}

/// Compares two strings with `<=` of `str`, which orders strings
/// lexicographically by their bytes, and so by their code points.
#[verifier::external_body]
pub(crate) fn text_le_exec(a: &str, b: &str) -> (le: bool)
    ensures
        le == text_le(a@, b@),
{
    a <= b
}

/// Calls `strsim::levenshtein`, which returns the least number of insertions,
/// deletions and substitutions of characters that change one string into the other.
#[verifier::external_body]
pub(crate) fn levenshtein(a: &str, b: &str) -> (distance: usize)
    ensures
        distance == edit_distance(a@, b@),
{
    strsim::levenshtein(a, b)
}

/// Prints a type path through `ShortName`, which drops the module prefix of
/// every path in it; the result is what [`short_type_name`] names.
#[verifier::external_body]
pub(crate) fn short_name(full: &str) -> (out: String)
    ensures
        out@ == short_type_name(full@),
{
    ShortName(full).to_string()
}

} // verus!

use vstd::prelude::*;
use vstd::utf8::is_ascii_chars;

verus! {

/// The Unicode `White_Space` property, the set of characters that
/// `char::is_whitespace` accepts.
pub open spec fn is_white_space(c: char) -> bool {
    let u = c as u32;
    ||| 0x09 <= u <= 0x0D
    ||| u == 0x20
    ||| u == 0x85
    ||| u == 0xA0
    ||| u == 0x1680
    ||| 0x2000 <= u <= 0x200A
    ||| u == 0x2028
    ||| u == 0x2029
    ||| u == 0x202F
    ||| u == 0x205F
    ||| u == 0x3000
}

/// Whether `c` separates words.
pub fn is_whitespace(c: char) -> (r: bool)
    ensures
        r == is_white_space(c),
{
    let u = c as u32;
    (0x09 <= u && u <= 0x0D) || u == 0x20 || u == 0x85 || u == 0xA0 || u == 0x1680 || (0x2000 <= u
        && u <= 0x200A) || u == 0x2028 || u == 0x2029 || u == 0x202F || u == 0x205F || u == 0x3000
}

/// The words of `s` (maximal runs of non-whitespace characters) joined by
/// single spaces: what `s.trim().split_whitespace().collect::<Vec<_>>().join(" ")`
/// yields.
pub open spec fn collapse(s: Seq<char>) -> Seq<char>
    decreases s.len(),
{
    if s.len() == 0 {
        Seq::empty()
    } else {
        let prev = collapse(s.drop_last());
        let c = s.last();
        if is_white_space(c) {
            prev
        } else if prev.len() > 0 && is_white_space(s[s.len() - 2]) {
            prev.push(' ').push(c)
        } else {
            prev.push(c)
        }
    }
}

/// `s` with each ASCII upper-case letter replaced by its lower-case letter.
pub open spec fn ascii_lower(s: Seq<char>) -> Seq<char> {
    s.map_values(|c: char| if 'A' <= c <= 'Z' { ((c as u32) + 32) as char } else { c })
}

/// What `str::to_lowercase` returns on a string with these characters.
pub uninterp spec fn str_to_lowercase(s: Seq<char>) -> Seq<char>;

/// Calls `str::to_lowercase`. The contract names its result and states, as the
/// method's documentation shows, that on ASCII input it lowers exactly the
/// letters `A`..=`Z` and leaves every other character as it is. What it does
/// to other characters (Unicode case mapping, final sigma) is left to the name.
#[verifier::external_body]
pub(crate) fn to_lowercase(s: &str) -> (r: String)
    ensures
        r@ == str_to_lowercase(s@),
        is_ascii_chars(s@) ==> r@ == ascii_lower(s@),
{
    s.to_lowercase()
}

/// Calls `String::push`, which appends one character.
#[verifier::external_body]
pub(crate) fn push_char(s: &mut String, c: char)
    ensures
        final(s)@ == old(s)@.push(c),
{
    s.push(c)
}

/// The normal form that fingerprints and signatures are computed from:
/// whitespace collapsed, then lower-cased.
pub open spec fn normalized(q: Seq<char>) -> Seq<char> {
    let w = collapse(q);
    if is_ascii_chars(w) {
        ascii_lower(w)
    } else {
        str_to_lowercase(w)
    }
}

/// Collapse every run of whitespace to one space and drop leading and
/// trailing whitespace.
pub fn collapse_whitespace(s: &str) -> (r: String)
    ensures
        r@ == collapse(s@),
{
    let mut out = String::new();
    let mut prev_ws = false;
    let mut started = false;
    let ghost mut seen: Seq<char> = Seq::empty();
    broadcast use vstd::string::axiom_spec_iter;
    for c in it: s.chars()
        invariant
            it.seq() == s@,
            seen == it.seq().take(it.index()),
            out@ == collapse(seen),
            it.index() > 0 ==> prev_ws == is_white_space(seen.last()),
            it.index() == 0 ==> !prev_ws,
            started == (out@.len() > 0),
    {
        proof {
            assert(it.seq().take(it.index() + 1) =~= seen.push(c));
            assert(seen.push(c).drop_last() =~= seen);
            if seen.len() > 0 {
                assert(seen.push(c)[seen.len() - 1] == seen.last());
            }
            seen = seen.push(c);
        }
        let ws = is_whitespace(c);
        if !ws {
            if started && prev_ws {
                push_char(&mut out, ' ');
            }
            push_char(&mut out, c);
            started = true;
        }
        prev_ws = ws;
    }
    assert(seen =~= s@);
    out
}

/// Two ASCII texts with the same words up to the case of their letters have
/// the same normal form, whatever whitespace separates the words.
pub proof fn lemma_ascii_case_and_spacing(t1: Seq<char>, t2: Seq<char>)
    requires
        is_ascii_chars(collapse(t1)),
        is_ascii_chars(collapse(t2)),
        ascii_lower(collapse(t1)) == ascii_lower(collapse(t2)),
    ensures
        normalized(t1) == normalized(t2),
{
}

/// `w` is in collapsed form: its only whitespace is single spaces between
/// words.
pub open spec fn is_collapsed(w: Seq<char>) -> bool {
    &&& forall|i: int| 0 <= i < w.len() && is_white_space(#[trigger] w[i]) ==> w[i] == ' '
    &&& w.len() > 0 ==> w[0] != ' ' && w.last() != ' '
    &&& forall|i: int| 0 <= i < w.len() - 1 && #[trigger] w[i] == ' ' ==> w[i + 1] != ' '
}

proof fn lemma_collapse_is_collapsed(s: Seq<char>)
    ensures
        is_collapsed(collapse(s)),
    decreases s.len(),
{
    if s.len() > 0 {
        lemma_collapse_is_collapsed(s.drop_last());
        let prev = collapse(s.drop_last());
        let c = s.last();
        let w = collapse(s);
        if !is_white_space(c) {
            if prev.len() > 0 && is_white_space(s[s.len() - 2]) {
                assert(w == prev.push(' ').push(c));
                assert forall|i: int| 0 <= i < w.len() - 1 && #[trigger] w[i] == ' ' implies w[i + 1] != ' ' by {
                    if i < prev.len() - 1 {
                        assert(w[i] == prev[i] && w[i + 1] == prev[i + 1]);
                    } else if i == prev.len() - 1 {
                        assert(w[i] == prev.last());
                    }
                }
                assert forall|i: int| 0 <= i < w.len() && is_white_space(#[trigger] w[i]) implies w[i] == ' ' by {
                    if i < prev.len() {
                        assert(w[i] == prev[i]);
                    }
                }
            } else {
                assert(w == prev.push(c));
                assert forall|i: int| 0 <= i < w.len() - 1 && #[trigger] w[i] == ' ' implies w[i + 1] != ' ' by {
                    if i < prev.len() - 1 {
                        assert(w[i] == prev[i] && w[i + 1] == prev[i + 1]);
                    } else if i == prev.len() - 1 {
                        assert(w[i] == prev.last());
                    }
                }
                assert forall|i: int| 0 <= i < w.len() && is_white_space(#[trigger] w[i]) implies w[i] == ' ' by {
                    if i < prev.len() {
                        assert(w[i] == prev[i]);
                    }
                }
            }
        }
    }
}

/// On a string whose only whitespace is single spaces, none leading,
/// `collapse` drops a trailing space and changes nothing else.
proof fn lemma_collapse_of_spaced(w: Seq<char>)
    requires
        forall|i: int| 0 <= i < w.len() && is_white_space(#[trigger] w[i]) ==> w[i] == ' ',
        w.len() > 0 ==> w[0] != ' ',
        forall|i: int| 0 <= i < w.len() - 1 && #[trigger] w[i] == ' ' ==> w[i + 1] != ' ',
    ensures
        collapse(w) == if w.len() > 0 && w.last() == ' ' { w.drop_last() } else { w },
    decreases w.len(),
{
    if w.len() > 0 {
        let v = w.drop_last();
        assert forall|i: int| 0 <= i < v.len() && is_white_space(#[trigger] v[i]) implies v[i] == ' ' by {
            assert(v[i] == w[i]);
        }
        assert forall|i: int| 0 <= i < v.len() - 1 && #[trigger] v[i] == ' ' implies v[i + 1] != ' ' by {
            assert(v[i] == w[i] && v[i + 1] == w[i + 1]);
        }
        lemma_collapse_of_spaced(v);
        assert(w.drop_last() == v);
        let c = w.last();
        if is_white_space(c) {
            assert(c == w[w.len() - 1]);
            if v.len() > 0 {
                assert(v.last() == w[w.len() - 2]);
            }
        } else if v.len() > 0 && v.last() == ' ' {
            assert(v.last() == w[w.len() - 2]);
            assert(v.len() >= 2) by {
                assert(v[0] == w[0]);
            }
            assert(w == v.drop_last().push(' ').push(c));
        } else {
            if v.len() > 0 {
                assert(v.last() == w[w.len() - 2]);
                assert(!is_white_space(w[w.len() - 2]));
            }
            assert(w == v.push(c));
        }
    }
}

/// The characters of `s` that are not whitespace, in their order.
pub open spec fn non_white(s: Seq<char>) -> Seq<char>
    decreases s.len(),
{
    if s.len() == 0 {
        Seq::empty()
    } else {
        let r = non_white(s.drop_last());
        if is_white_space(s.last()) {
            r
        } else {
            r.push(s.last())
        }
    }
}

/// Collapsing whitespace keeps every other character, in its order, and
/// leaves a text that is already collapsed (single spaces between words, none
/// at either end) as it is.
pub proof fn lemma_collapse_keeps_words(s: Seq<char>)
    ensures
        non_white(collapse(s)) == non_white(s),
        is_collapsed(s) ==> collapse(s) == s,
    decreases s.len(),
{
    if s.len() > 0 {
        lemma_collapse_keeps_words(s.drop_last());
        let prev = collapse(s.drop_last());
        let c = s.last();
        assert(is_white_space(' '));
        if !is_white_space(c) {
            if prev.len() > 0 && is_white_space(s[s.len() - 2]) {
                let w = prev.push(' ').push(c);
                assert(w.drop_last() =~= prev.push(' '));
                assert(w.last() == c);
                assert(prev.push(' ').drop_last() =~= prev);
                assert(prev.push(' ').last() == ' ');
                assert(non_white(prev.push(' ')) == non_white(prev));
                assert(non_white(w) == non_white(prev).push(c));
            } else {
                assert(prev.push(c).drop_last() =~= prev);
                assert(prev.push(c).last() == c);
                assert(non_white(prev.push(c)) == non_white(prev).push(c));
            }
        }
        if is_collapsed(s) {
            lemma_collapse_of_spaced(s);
        }
    }
}

/// Collapsing whitespace twice is the same as once.
pub proof fn lemma_collapse_idempotent(s: Seq<char>)
    ensures
        collapse(collapse(s)) == collapse(s),
{
    lemma_collapse_is_collapsed(s);
    lemma_collapse_of_spaced(collapse(s));
}

/// Normalizing an ASCII text twice is the same as once.
pub proof fn lemma_normalize_idempotent_ascii(q: Seq<char>)
    requires
        is_ascii_chars(collapse(q)),
    ensures
        normalized(normalized(q)) == normalized(q),
{
    let w = collapse(q);
    let l = ascii_lower(w);
    lemma_collapse_is_collapsed(q);
    assert forall|i: int| 0 <= i < l.len() && is_white_space(#[trigger] l[i]) implies l[i] == ' ' by {
        assert(is_white_space(w[i]));
    }
    assert forall|i: int| 0 <= i < l.len() - 1 && #[trigger] l[i] == ' ' implies l[i + 1] != ' ' by {
        assert(w[i] == ' ');
    }
    if l.len() > 0 {
        assert(l[0] == if 'A' <= w[0] <= 'Z' { ((w[0] as u32) + 32) as char } else { w[0] });
        assert(l.last() == l[l.len() - 1]);
    }
    lemma_collapse_of_spaced(l);
    assert(is_ascii_chars(l));
    assert(ascii_lower(l) =~= l);
}

proof fn lemma_collapse_ascii(s: Seq<char>)
    requires
        is_ascii_chars(s),
    ensures
        is_ascii_chars(collapse(s)),
    decreases s.len(),
{
    if s.len() > 0 {
        let t = s.drop_last();
        assert(is_ascii_chars(t)) by {
            assert forall|i: int| 0 <= i < t.len() implies '\0' <= #[trigger] t[i] <= '\u{7f}' by {
                assert(t[i] == s[i]);
            }
        }
        lemma_collapse_ascii(t);
        assert(s.last() == s[s.len() - 1]);
    }
}

/// The normal form of an ASCII text is ASCII.
pub proof fn lemma_normal_form_of_ascii(q: Seq<char>)
    requires
        is_ascii_chars(q),
    ensures
        is_ascii_chars(normalized(q)),
{
    lemma_collapse_ascii(q);
    let w = collapse(q);
    let l = ascii_lower(w);
    assert forall|i: int| 0 <= i < l.len() implies '\0' <= #[trigger] l[i] <= '\u{7f}' by {
        assert(w[i] <= '\u{7f}');
    }
}

} // verus!

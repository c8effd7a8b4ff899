//! Multi-language syntax validation for sandboxed execution.
use vstd::prelude::*;
use vstd::string::StringExecFns;

verus! {

/// The characters of `s`, in order.
pub fn chars_of(s: &str) -> (r: Vec<char>)
    ensures
        r@ == s@,
{
    broadcast use vstd::string::axiom_spec_iter;

    let mut r: Vec<char> = Vec::new();
    for c in it: s.chars()
        invariant
            it.seq() == s@,
            r@ == it.seq().take(it.index()),
    {
        assert(it.seq().take(it.index() + 1) =~= r@.push(c));
        r.push(c);
    }
    assert(r@ =~= s@);
    r
}

/// `pattern` occurs in `text` starting at position `i`.
pub open spec fn occurs_at(text: Seq<char>, pattern: Seq<char>, i: int) -> bool {
    0 <= i && i + pattern.len() <= text.len() && text.subrange(i, i + pattern.len()) == pattern
}

/// `pattern` occurs somewhere in `text`.
pub open spec fn contains_seq(text: Seq<char>, pattern: Seq<char>) -> bool {
    exists|i: int| occurs_at(text, pattern, i)
}

/// Whether `pattern` occurs in `text`.
pub fn contains(text: &Vec<char>, pattern: &str) -> (r: bool)
    ensures
        r == contains_seq(text@, pattern@),
{
    let pat = chars_of(pattern);
    let n = text.len();
    let m = pat.len();
    if m > n {
        assert forall|i: int| !occurs_at(text@, pattern@, i) by {}
        return false;
    }
    let mut i: usize = 0;
    while i <= n - m
        invariant
            pat@ == pattern@,
            n == text@.len(),
            m == pat@.len(),
            m <= n,
            i <= n - m + 1,
            forall|k: int| 0 <= k < i ==> !occurs_at(text@, pattern@, k),
        decreases n - m + 1 - i,
    {
        let mut j: usize = 0;
        let mut same = true;
        while j < m
            invariant
                pat@ == pattern@,
                n == text@.len(),
                m == pat@.len(),
                i + m <= n,
                j <= m,
                same == (forall|k: int| 0 <= k < j ==> text@[i + k] == pat@[k]),
            decreases m - j,
        {
            if text[i + j] != pat[j] {
                same = false;
            }
            j = j + 1;
        }
        if same {
            assert(text@.subrange(i as int, i + m) =~= pattern@);
            assert(occurs_at(text@, pattern@, i as int));
            return true;
        }
        assert(!occurs_at(text@, pattern@, i as int)) by {
            if text@.subrange(i as int, i + m) == pattern@ {
                assert forall|k: int| 0 <= k < m implies text@[i + k] == pat@[k] by {
                    assert(text@.subrange(i as int, i + m)[k] == text@[i + k]);
                }
            }
        }
        i = i + 1;
    }
    assert forall|k: int| !occurs_at(text@, pattern@, k) by {
        if 0 <= k && k + m <= n {
            assert(k < i);
        }
    }
    false
}

/// The delimiter scan state after a prefix: open parentheses, brackets and
/// braces; inside a string literal; the next character escaped; the quote that
/// opened the string; and whether a closer came before its opener.
pub type ScanState = (int, int, int, bool, bool, char, bool);

/// The scan state before any character.
pub open spec fn scan_start() -> ScanState {
    (0, 0, 0, false, false, ' ', false)
}

/// One step of the delimiter scan. Inside a string, a backslash escapes the
/// next character and the opening quote ends the string; outside, quotes open
/// a string and brackets of the three kinds are counted. A count below zero
/// fails the scan for good.
pub open spec fn scan_step(st: ScanState, ch: char) -> ScanState {
    let (p, b, c, in_string, escape, quote, failed) = st;
    if failed {
        st
    } else if escape {
        (p, b, c, in_string, false, quote, false)
    } else if ch == '\\' && in_string {
        (p, b, c, in_string, true, quote, false)
    } else if in_string {
        (p, b, c, ch != quote, false, quote, false)
    } else if ch == '"' || ch == '\'' {
        (p, b, c, true, false, ch, false)
    } else {
        let p2 = if ch == '(' { p + 1 } else if ch == ')' { p - 1 } else { p };
        let b2 = if ch == '[' { b + 1 } else if ch == ']' { b - 1 } else { b };
        let c2 = if ch == '{' { c + 1 } else if ch == '}' { c - 1 } else { c };
        (p2, b2, c2, false, false, quote, p2 < 0 || b2 < 0 || c2 < 0)
    }
}

/// The scan state after all of `s`.
pub open spec fn scan(s: Seq<char>) -> ScanState
    decreases s.len(),
{
    if s.len() == 0 {
        scan_start()
    } else {
        scan_step(scan(s.drop_last()), s.last())
    }
}

/// Parentheses, brackets and braces outside string literals are balanced, no
/// closer comes before its opener, and every string literal is closed.
pub open spec fn balanced(s: Seq<char>) -> bool {
    let st = scan(s);
    !st.6 && st.0 == 0 && st.1 == 0 && st.2 == 0 && !st.3
}

proof fn lemma_failure_persists(s: Seq<char>, k: int)
    requires
        0 <= k <= s.len(),
        scan(s.take(k)).6,
    ensures
        scan(s).6,
    decreases s.len() - k,
{
    if k < s.len() {
        assert(s.take(k + 1).drop_last() =~= s.take(k));
        lemma_failure_persists(s, k + 1);
    } else {
        assert(s.take(k) =~= s);
    }
}

/// The scan state after `t`, starting from state `st`.
pub open spec fn scan_from(st: ScanState, t: Seq<char>) -> ScanState
    decreases t.len(),
{
    if t.len() == 0 {
        st
    } else {
        scan_step(scan_from(st, t.drop_last()), t.last())
    }
}

/// Two scan states that lead to the same verdicts: they differ at most in the
/// remembered quote, and only outside a string.
spec fn same_course(a: ScanState, b: ScanState) -> bool {
    &&& a.0 == b.0
    &&& a.1 == b.1
    &&& a.2 == b.2
    &&& a.3 == b.3
    &&& a.4 == b.4
    &&& a.6 == b.6
    &&& a.3 ==> a.5 == b.5
}

/// `st` with `k` more open parentheses, brackets or braces.
spec fn shifted(st: ScanState, dp: int, db: int, dc: int) -> ScanState {
    (st.0 + dp, st.1 + db, st.2 + dc, st.3, st.4, st.5, st.6)
}

proof fn lemma_scan_concat(s: Seq<char>, t: Seq<char>)
    ensures
        scan(s + t) == scan_from(scan(s), t),
    decreases t.len(),
{
    if t.len() == 0 {
        assert(s + t =~= s);
    } else {
        lemma_scan_concat(s, t.drop_last());
        assert((s + t).drop_last() =~= s + t.drop_last());
        assert((s + t).last() == t.last());
    }
}

proof fn lemma_same_course(a: ScanState, b: ScanState, t: Seq<char>)
    requires
        same_course(a, b),
    ensures
        same_course(scan_from(a, t), scan_from(b, t)),
    decreases t.len(),
{
    if t.len() > 0 {
        lemma_same_course(a, b, t.drop_last());
    }
}

proof fn lemma_failed_sticky(st: ScanState, t: Seq<char>)
    requires
        st.6,
    ensures
        scan_from(st, t) == st,
    decreases t.len(),
{
    if t.len() > 0 {
        lemma_failed_sticky(st, t.drop_last());
    }
}

proof fn lemma_shift(st: ScanState, t: Seq<char>, dp: int, db: int, dc: int)
    requires
        !st.6,
        !scan_from(st, t).6,
        dp >= 0,
        db >= 0,
        dc >= 0,
    ensures
        scan_from(shifted(st, dp, db, dc), t) == shifted(scan_from(st, t), dp, db, dc),
    decreases t.len(),
{
    if t.len() > 0 {
        let prev = scan_from(st, t.drop_last());
        if prev.6 {
            lemma_failed_sticky(prev, seq![t.last()]);
        }
        lemma_shift(st, t.drop_last(), dp, db, dc);
    }
}

proof fn lemma_escape_in_string(s: Seq<char>)
    ensures
        scan(s).4 ==> scan(s).3,
    decreases s.len(),
{
    if s.len() > 0 {
        lemma_escape_in_string(s.drop_last());
    }
}

proof fn lemma_wrap(s: Seq<char>, open: char, close: char, dp: int, db: int, dc: int)
    requires
        balanced(s),
        (open, close, dp, db, dc) == ('(', ')', 1int, 0int, 0int) || (open, close, dp, db, dc) == (
            '[',
            ']',
            0int,
            1int,
            0int,
        ) || (open, close, dp, db, dc) == ('{', '}', 0int, 0int, 1int),
    ensures
        balanced(seq![open] + s + seq![close]),
{
    let o = seq![open];
    assert(o.drop_last() =~= Seq::<char>::empty());
    assert(o.last() == open);
    assert(scan(Seq::<char>::empty()) == scan_start());
    assert(scan(o) == scan_step(scan_start(), open));
    assert(scan(o) == shifted(scan_start(), dp, db, dc));
    lemma_scan_concat(o, s);
    assert(scan_from(scan_start(), s) == scan(s)) by {
        lemma_scan_from_start(s);
    }
    lemma_shift(scan_start(), s, dp, db, dc);
    lemma_escape_in_string(s);
    lemma_scan_concat(o + s, seq![close]);
    let c = seq![close];
    assert(c.drop_last() =~= Seq::<char>::empty());
    assert(c.last() == close);
    assert(scan_from(scan(o + s), c.drop_last()) == scan(o + s));
    assert(scan_from(scan(o + s), c) == scan_step(scan(o + s), close));
    assert(scan(o + s) == shifted(scan(s), dp, db, dc));
}

proof fn lemma_scan_from_start(s: Seq<char>)
    ensures
        scan_from(scan_start(), s) == scan(s),
    decreases s.len(),
{
    if s.len() > 0 {
        lemma_scan_from_start(s.drop_last());
    }
}

/// Balanced code stays balanced when two pieces are joined and when a piece is
/// put inside a pair of parentheses, brackets or braces; the empty code is
/// balanced.
pub proof fn lemma_balanced_closed(s: Seq<char>, t: Seq<char>)
    requires
        balanced(s),
        balanced(t),
    ensures
        balanced(s + t),
        balanced(seq!['('] + s + seq![')']),
        balanced(seq!['['] + s + seq![']']),
        balanced(seq!['{'] + s + seq!['}']),
        balanced(Seq::empty()),
{
    lemma_scan_concat(s, t);
    lemma_escape_in_string(s);
    lemma_scan_from_start(t);
    lemma_same_course(scan(s), scan_start(), t);
    lemma_wrap(s, '(', ')', 1, 0, 0);
    lemma_wrap(s, '[', ']', 0, 1, 0);
    lemma_wrap(s, '{', '}', 0, 0, 1);
}

proof fn lemma_failed_outside_string(s: Seq<char>)
    ensures
        scan(s).6 ==> !scan(s).3,
    decreases s.len(),
{
    if s.len() > 0 {
        lemma_failed_outside_string(s.drop_last());
    }
}

proof fn lemma_in_string_inert(st: ScanState, t: Seq<char>)
    requires
        st.3,
        !st.4,
        !st.6,
        forall|k: int| 0 <= k < t.len() ==> #[trigger] t[k] != st.5 && t[k] != '\\',
    ensures
        scan_from(st, t) == st,
    decreases t.len(),
{
    if t.len() > 0 {
        lemma_in_string_inert(st, t.drop_last());
        assert(t.last() == t[t.len() - 1]);
    }
}

/// Inside a string literal only the quote that opened it ends it: text that
/// holds neither that quote nor a backslash (the other kind of quote and
/// every bracket included) leaves the scan exactly where it was, counts and
/// string state alike.
pub proof fn lemma_string_body_inert(s: Seq<char>, t: Seq<char>)
    requires
        scan(s).3,
        !scan(s).4,
        forall|k: int| 0 <= k < t.len() ==> #[trigger] t[k] != scan(s).5 && t[k] != '\\',
    ensures
        scan(s + t) == scan(s),
{
    lemma_failed_outside_string(s);
    lemma_scan_concat(s, t);
    lemma_in_string_inert(scan(s), t);
}

/// A string literal opened and closed by the same quote, `"` or `'`, with
/// neither that quote nor a backslash inside, is balanced whatever else it
/// holds: `"it's fine"` and `'say "hi" (twice'` are.
pub proof fn lemma_quoted_balanced(q: char, t: Seq<char>)
    requires
        q == '"' || q == '\'',
        forall|k: int| 0 <= k < t.len() ==> #[trigger] t[k] != q && t[k] != '\\',
    ensures
        balanced(seq![q] + t + seq![q]),
{
    let o = seq![q];
    assert(o.drop_last() =~= Seq::<char>::empty());
    assert(o.last() == q);
    assert(scan(Seq::<char>::empty()) == scan_start());
    assert(scan(o) == scan_step(scan_start(), q));
    lemma_string_body_inert(o, t);
    let w = o + t + seq![q];
    assert(w.drop_last() =~= o + t);
    assert(w.last() == q);
    assert(scan(w) == scan_step(scan(o + t), q));
}

/// Balanced code followed by a lone opener (`(`, `[`, `{`), a lone closer
/// (`)`, `]`, `}`) or a lone quote (`"`, `'`) is no longer balanced: the opener
/// is never closed, the closer comes before any opener, the string never ends.
pub proof fn lemma_lone_delimiter_unbalanced(s: Seq<char>, c: char)
    requires
        balanced(s),
        c == '(' || c == '[' || c == '{' || c == ')' || c == ']' || c == '}' || c == '"' || c == '\'',
    ensures
        !balanced(s + seq![c]),
{
    lemma_escape_in_string(s);
    let w = s + seq![c];
    assert(w.drop_last() =~= s);
    assert(w.last() == c);
    assert(scan(w) == scan_step(scan(s), c));
}

/// Whether the delimiters of `code` are balanced (see `balanced`).
pub fn balanced_delimiters(code: &str) -> (r: bool)
    ensures
        r == balanced(code@),
{
    let chars = chars_of(code);
    let mut paren: usize = 0;
    let mut bracket: usize = 0;
    let mut brace: usize = 0;
    let mut in_string = false;
    let mut escape_next = false;
    let mut string_char = ' ';
    let mut i: usize = 0;
    while i < chars.len()
        invariant
            chars@ == code@,
            i <= chars@.len(),
            paren <= i,
            bracket <= i,
            brace <= i,
            scan(code@.take(i as int)) == (
                paren as int,
                bracket as int,
                brace as int,
                in_string,
                escape_next,
                string_char,
                false,
            ),
        decreases chars@.len() - i,
    {
        let ch = chars[i];
        assert(code@.take(i + 1).drop_last() =~= code@.take(i as int));
        if escape_next {
            escape_next = false;
        } else if ch == '\\' && in_string {
            escape_next = true;
        } else if in_string {
            if ch == string_char {
                in_string = false;
            }
        } else if ch == '"' || ch == '\'' {
            in_string = true;
            string_char = ch;
        } else if ch == '(' {
            paren = paren + 1;
        } else if ch == ')' {
            if paren == 0 {
                proof { lemma_failure_persists(code@, i + 1); }
                return false;
            }
            paren = paren - 1;
        } else if ch == '[' {
            bracket = bracket + 1;
        } else if ch == ']' {
            if bracket == 0 {
                proof { lemma_failure_persists(code@, i + 1); }
                return false;
            }
            bracket = bracket - 1;
        } else if ch == '{' {
            brace = brace + 1;
        } else if ch == '}' {
            if brace == 0 {
                proof { lemma_failure_persists(code@, i + 1); }
                return false;
            }
            brace = brace - 1;
        }
        i = i + 1;
    }
    assert(code@.take(i as int) =~= code@);
    paren == 0 && bracket == 0 && brace == 0 && !in_string
}

/// The patterns that `validate_python` blocks, in the order they are tried.
pub open spec fn python_patterns() -> Seq<Seq<char>> {
    seq![
        "$("@,
        "&&"@,
        "||"@,
        "|"@,
        ">>"@,
        ">"@,
        "<"@,
        "`"@,
        ";"@,
        "__import__"@,
        "exec("@,
        "eval("@,
        "os.system"@,
        "subprocess"@,
    ]
}

/// The patterns that `validate_rust` blocks, in the order they are tried.
pub open spec fn rust_patterns() -> Seq<Seq<char>> {
    seq!["unsafe"@, "std::process::Command"@, "std::fs::"@, "std::net::"@, "std::thread::spawn"@]
}

/// The position of the first pattern, from position `i` on, that occurs in `code`.
pub open spec fn first_blocked(code: Seq<char>, patterns: Seq<Seq<char>>, i: int) -> Option<int>
    decreases patterns.len() - i,
{
    if i < 0 || i >= patterns.len() {
        None
    } else if contains_seq(code, patterns[i]) {
        Some(i)
    } else {
        first_blocked(code, patterns, i + 1)
    }
}

/// The error for a blocked pattern: the pattern is quoted as `{:?}` prints it
/// (none of the patterns holds a character that it escapes).
pub open spec fn blocked_message(language: Seq<char>, pattern: Seq<char>) -> Seq<char> {
    "blocked pattern in "@ + language + " code: \""@ + pattern + "\""@
}

/// The error for unbalanced delimiters.
pub open spec fn unbalanced_message(language: Seq<char>) -> Seq<char> {
    "unbalanced delimiters in "@ + language + " code"@
}

/// The verdict on `code`: the first blocked pattern that occurs rejects it;
/// otherwise unbalanced delimiters reject it; otherwise it passes.
pub open spec fn syntax_verdict(code: Seq<char>, patterns: Seq<Seq<char>>, language: Seq<char>) -> Result<(), Seq<char>> {
    match first_blocked(code, patterns, 0) {
        Some(k) => Err(blocked_message(language, patterns[k])),
        None => if balanced(code) {
            Ok(())
        } else {
            Err(unbalanced_message(language))
        },
    }
}

/// A result with its error taken by its view.
pub open spec fn result_view(r: Result<(), String>) -> Result<(), Seq<char>> {
    match r {
        Ok(()) => Ok(()),
        Err(e) => Err(e@),
    }
}

fn check_syntax(code: &str, patterns: &[&str], language: &str, pats: Ghost<Seq<Seq<char>>>) -> (r: Result<(), String>)
    requires
        patterns@.len() == pats@.len(),
        forall|i: int| 0 <= i < pats@.len() ==> #[trigger] patterns@[i]@ == pats@[i],
    ensures
        result_view(r) == syntax_verdict(code@, pats@, language@),
{
    let chars = chars_of(code);
    let mut i: usize = 0;
    while i < patterns.len()
        invariant
            chars@ == code@,
            patterns@.len() == pats@.len(),
            forall|i: int| 0 <= i < pats@.len() ==> #[trigger] patterns@[i]@ == pats@[i],
            i <= patterns@.len(),
            first_blocked(code@, pats@, 0) == first_blocked(code@, pats@, i as int),
        decreases patterns@.len() - i,
    {
        let pattern = patterns[i];
        if contains(&chars, pattern) {
            let mut msg = "blocked pattern in ".to_owned();
            msg.append(language);
            msg.append(" code: \"");
            msg.append(pattern);
            msg.append("\"");
            return Err(msg);
        }
        i = i + 1;
    }
    if !balanced_delimiters(code) {
        let mut msg = "unbalanced delimiters in ".to_owned();
        msg.append(language);
        msg.append(" code");
        return Err(msg);
    }
    Ok(())
}

/// Validate Python code: block shell metacharacters and injection patterns,
/// then check that delimiters are balanced.
pub fn validate_python(code: &str) -> (r: Result<(), String>)
    ensures
        result_view(r) == syntax_verdict(code@, python_patterns(), "Python"@),
        r is Ok <==> python_allowed(code@),
{
    let blocked = [
        "$(",
        "&&",
        "||",
        "|",
        ">>",
        ">",
        "<",
        "`",
        ";",
        "__import__",
        "exec(",
        "eval(",
        "os.system",
        "subprocess",
    ];
    assert(blocked@.map_values(|p: &str| p@) =~= python_patterns());
    proof {
        lemma_python_verdict(code@);
    }
    check_syntax(code, &blocked, "Python", Ghost(python_patterns()))
}

/// Python code that may run: it holds none of the shell metacharacters
/// `$(`, `&&`, `||`, `|`, `>>`, `>`, `<`, backquote and `;`, none of
/// `__import__`, `exec(`, `eval(`, `os.system` and `subprocess`, and its
/// delimiters are balanced.
pub open spec fn python_allowed(code: Seq<char>) -> bool {
    &&& !contains_seq(code, "$("@)
    &&& !contains_seq(code, "&&"@)
    &&& !contains_seq(code, "||"@)
    &&& !contains_seq(code, "|"@)
    &&& !contains_seq(code, ">>"@)
    &&& !contains_seq(code, ">"@)
    &&& !contains_seq(code, "<"@)
    &&& !contains_seq(code, "`"@)
    &&& !contains_seq(code, ";"@)
    &&& !contains_seq(code, "__import__"@)
    &&& !contains_seq(code, "exec("@)
    &&& !contains_seq(code, "eval("@)
    &&& !contains_seq(code, "os.system"@)
    &&& !contains_seq(code, "subprocess"@)
    &&& balanced(code)
}

/// The Python verdict accepts exactly the code that holds none of the
/// fourteen blocked Python patterns and has balanced delimiters.
pub proof fn lemma_python_verdict(code: Seq<char>)
    ensures
        syntax_verdict(code, python_patterns(), "Python"@) is Ok <==> python_allowed(code),
{
    let pats = python_patterns();
    lemma_first_blocked_none(code, pats, 0);
    assert(pats.len() == 14);
    assert(pats[0] == "$("@);
    assert(pats[1] == "&&"@);
    assert(pats[2] == "||"@);
    assert(pats[3] == "|"@);
    assert(pats[4] == ">>"@);
    assert(pats[5] == ">"@);
    assert(pats[6] == "<"@);
    assert(pats[7] == "`"@);
    assert(pats[8] == ";"@);
    assert(pats[9] == "__import__"@);
    assert(pats[10] == "exec("@);
    assert(pats[11] == "eval("@);
    assert(pats[12] == "os.system"@);
    assert(pats[13] == "subprocess"@);
}

/// Validate Rust code: block unsafe blocks and dangerous std paths, then check
/// that delimiters are balanced.
pub fn validate_rust(code: &str) -> (r: Result<(), String>)
    ensures
        result_view(r) == syntax_verdict(code@, rust_patterns(), "Rust"@),
        r is Ok <==> rust_allowed(code@),
{
    let blocked = ["unsafe", "std::process::Command", "std::fs::", "std::net::", "std::thread::spawn"];
    assert(blocked@.map_values(|p: &str| p@) =~= rust_patterns());
    proof {
        lemma_rust_verdict(code@);
    }
    check_syntax(code, &blocked, "Rust", Ghost(rust_patterns()))
}

/// Rust code that may run: it holds none of `unsafe`, `std::process::Command`,
/// `std::fs::`, `std::net::` and `std::thread::spawn`, and its delimiters are
/// balanced.
pub open spec fn rust_allowed(code: Seq<char>) -> bool {
    &&& !contains_seq(code, "unsafe"@)
    &&& !contains_seq(code, "std::process::Command"@)
    &&& !contains_seq(code, "std::fs::"@)
    &&& !contains_seq(code, "std::net::"@)
    &&& !contains_seq(code, "std::thread::spawn"@)
    &&& balanced(code)
}

proof fn lemma_first_blocked_none(code: Seq<char>, pats: Seq<Seq<char>>, i: int)
    requires
        0 <= i <= pats.len(),
    ensures
        first_blocked(code, pats, i) is None <==> forall|j: int|
            i <= j < pats.len() ==> !contains_seq(code, #[trigger] pats[j]),
    decreases pats.len() - i,
{
    if i < pats.len() {
        lemma_first_blocked_none(code, pats, i + 1);
    }
}

/// The Rust verdict accepts exactly the code that holds none of the five
/// blocked Rust patterns and has balanced delimiters; code that spawns a
/// thread is rejected, and where that is its only blocked pattern the error
/// names `std::thread::spawn`. Python's patterns play no part: `;`, `|` or
/// `>` alone never reject Rust code.
pub proof fn lemma_rust_verdict(code: Seq<char>)
    ensures
        syntax_verdict(code, rust_patterns(), "Rust"@) is Ok <==> rust_allowed(code),
        contains_seq(code, "std::thread::spawn"@) ==> syntax_verdict(code, rust_patterns(), "Rust"@) is Err,
        ({
            &&& !contains_seq(code, "unsafe"@)
            &&& !contains_seq(code, "std::process::Command"@)
            &&& !contains_seq(code, "std::fs::"@)
            &&& !contains_seq(code, "std::net::"@)
            &&& contains_seq(code, "std::thread::spawn"@)
        }) ==> syntax_verdict(code, rust_patterns(), "Rust"@) == Err::<(), Seq<char>>(
            "blocked pattern in Rust code: \"std::thread::spawn\""@,
        ),
{
    let pats = rust_patterns();
    lemma_first_blocked_none(code, pats, 0);
    assert(pats.len() == 5);
    assert(pats[0] == "unsafe"@);
    assert(pats[1] == "std::process::Command"@);
    assert(pats[2] == "std::fs::"@);
    assert(pats[3] == "std::net::"@);
    assert(pats[4] == "std::thread::spawn"@);
    reveal_with_fuel(first_blocked, 6);
    if contains_seq(code, "std::thread::spawn"@) {
        assert(first_blocked(code, pats, 0) is Some);
    }
    assert(blocked_message("Rust"@, "std::thread::spawn"@)
        =~= "blocked pattern in Rust code: \"std::thread::spawn\""@) by {
        reveal_strlit("blocked pattern in ");
        reveal_strlit("Rust");
        reveal_strlit(" code: \"");
        reveal_strlit("std::thread::spawn");
        reveal_strlit("\"");
        reveal_strlit("blocked pattern in Rust code: \"std::thread::spawn\"");
    }
}

/// What `serde_json::from_str::<serde_json::Value>` does with this text:
/// `Ok` when it parses as JSON, else `Err` with the text that the error
/// displays.
pub uninterp spec fn serde_json_parse(text: Seq<char>) -> Result<(), Seq<char>>;

/// Calls `serde_json::from_str::<serde_json::Value>`, keeping only whether it
/// parsed and, when it did not, the text that its error displays. Which texts
/// parse, and what the error says, is left to the name.
#[verifier::external_body]
fn parse_json_value(payload: &str) -> (r: Result<(), String>)
    ensures
        result_view(r) == serde_json_parse(payload@),
{
    match serde_json::from_str::<serde_json::Value>(payload) {
        Ok(_) => Ok(()),
        Err(e) => Err(e.to_string()),
    }
}

/// The verdict on a JSON payload, given what the parser said of it.
pub open spec fn json_verdict(parsed: Result<(), Seq<char>>) -> Result<(), Seq<char>> {
    match parsed {
        Ok(()) => Ok(()),
        Err(e) => Err("invalid JSON: "@ + e),
    }
}

/// Turn the parser's answer into the validator's: a parse error becomes
/// `invalid JSON: ` followed by the parser's message.
pub fn json_outcome(parsed: Result<(), String>) -> (r: Result<(), String>)
    ensures
        result_view(r) == json_verdict(result_view(parsed)),
{
    match parsed {
        Ok(()) => Ok(()),
        Err(e) => {
            let mut msg = "invalid JSON: ".to_owned();
            msg.append(e.as_str());
            Err(msg)
        },
    }
}

/// Validate a JSON payload by parsing it.
pub fn validate_json(payload: &str) -> (r: Result<(), String>)
    ensures
        result_view(r) == json_verdict(serde_json_parse(payload@)),
{
    json_outcome(parse_json_value(payload))
}

} // verus!

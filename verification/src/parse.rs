//! The text parser for lambda terms.

use vstd::prelude::*;
use vstd::string::StrSliceExecFns;

use crate::term::LamTerm;

verus! {

/// The characters with the Unicode `White_Space` property, which `str::trim`
/// removes.
pub open spec fn is_space(c: char) -> bool {
    ||| ('\u{9}' <= c && c <= '\u{d}')
    ||| c == ' '
    ||| c == '\u{85}'
    ||| c == '\u{a0}'
    ||| c == '\u{1680}'
    ||| ('\u{2000}' <= c && c <= '\u{200a}')
    ||| c == '\u{2028}'
    ||| c == '\u{2029}'
    ||| c == '\u{202f}'
    ||| c == '\u{205f}'
    ||| c == '\u{3000}'
}

/// The number of bytes of the UTF-8 encoding of `c`.
pub open spec fn utf8_width(c: char) -> nat {
    if (c as int) < 0x80 {
        1
    } else if (c as int) < 0x800 {
        2
    } else if (c as int) < 0x10000 {
        3
    } else {
        4
    }
}

/// The number of characters of `s` whose UTF-8 encoding is the first `b`
/// bytes of that of `s`; `None` when byte `b` is not a character boundary
/// (slicing a string there panics).
pub open spec fn char_cut(s: Seq<char>, b: nat) -> Option<nat>
    decreases s.len(),
{
    if b == 0 {
        Some(0)
    } else if s.len() == 0 || utf8_width(s[0]) > b {
        None
    } else {
        match char_cut(s.drop_first(), (b - utf8_width(s[0])) as nat) {
            Some(j) => Some(j + 1),
            None => None,
        }
    }
}

/// `s` without its leading white space.
pub open spec fn trim_start(s: Seq<char>) -> Seq<char>
    decreases s.len(),
{
    if s.len() > 0 && is_space(s[0]) {
        trim_start(s.drop_first())
    } else {
        s
    }
}

/// `s` without its trailing white space.
pub open spec fn trim_end(s: Seq<char>) -> Seq<char>
    decreases s.len(),
{
    if s.len() > 0 && is_space(s.last()) {
        trim_end(s.drop_last())
    } else {
        s
    }
}

/// `s` without its leading and trailing white space.
pub open spec fn trim(s: Seq<char>) -> Seq<char> {
    trim_end(trim_start(s))
}

/// Scans `t` from position `i` with `depth` parentheses open, `(` opening
/// and `)` closing one: the number of characters read when the depth first
/// drops to zero, or the length of `t` if it never does.
pub open spec fn paren_scan(t: Seq<char>, i: nat, depth: nat) -> nat
    decreases t.len() - i,
{
    if i >= t.len() {
        i
    } else {
        let d = if t[i as int] == '(' {
            depth + 1
        } else if t[i as int] == ')' {
            (depth - 1) as nat
        } else {
            depth
        };
        if d == 0 {
            i + 1
        } else {
            paren_scan(t, i + 1, d)
        }
    }
}

proof fn lemma_trim_start_len(s: Seq<char>)
    ensures
        trim_start(s).len() <= s.len(),
    decreases s.len(),
{
    if s.len() > 0 {
        lemma_trim_start_len(s.drop_first());
    }
}

proof fn lemma_trim_end_len(s: Seq<char>)
    ensures
        trim_end(s).len() <= s.len(),
    decreases s.len(),
{
    if s.len() > 0 {
        lemma_trim_end_len(s.drop_last());
    }
}

pub proof fn lemma_trim_len(s: Seq<char>)
    ensures
        trim(s).len() <= s.len(),
{
    lemma_trim_start_len(s);
    lemma_trim_end_len(trim_start(s));
}

pub proof fn lemma_paren_scan_bounds(t: Seq<char>, i: nat, depth: nat)
    requires
        i < t.len(),
    ensures
        i < paren_scan(t, i, depth) <= t.len(),
    decreases t.len() - i,
{
    let d = if t[i as int] == '(' {
        depth + 1
    } else if t[i as int] == ')' {
        (depth - 1) as nat
    } else {
        depth
    };
    if i + 1 < t.len() {
        lemma_paren_scan_bounds(t, i + 1, d);
    } else {
        assert(paren_scan(t, i + 1, d) == i + 1);
    }
}

/// A cut never takes more characters than bytes, nor more than there are.
pub proof fn lemma_char_cut_bounds(s: Seq<char>, b: nat)
    ensures
        char_cut(s, b) matches Some(j) ==> j <= b && j <= s.len(),
    decreases s.len(),
{
    if b > 0 && s.len() > 0 && utf8_width(s[0]) <= b {
        lemma_char_cut_bounds(s.drop_first(), (b - utf8_width(s[0])) as nat);
    }
}

/// The variable environment of the parser: each bound name and its binder
/// distance.
pub type Env = Map<char, nat>;

/// The environment inside one more binder for `x`: every distance grows by
/// one and `x` is bound at distance zero.
pub open spec fn bind(env: Env, x: char) -> Env {
    env.map_values(|d: nat| d + 1).insert(x, 0)
}

/// Parses `text` in `env`. After trimming white space:
/// - nothing parses to no term;
/// - `(` starts a term that runs to its matching `)`, or to the end of the
///   text, its last character dropped; whatever follows, if it parses to a
///   term, is the argument the first one is applied to; both are parsed in
///   `env`. The two pieces are cut at the byte offsets the character count
///   of the scan gives;
/// - `%x` starts an abstraction of `x` over the rest of the text;
/// - any other character is a variable, bound at its distance in `env`; the
///   rest of the text is ignored.
///
/// `None` where the parser fails (panics): an empty parenthesised term, a
/// `(` that ends the text, a cut inside a character, a `%` with no name,
/// a name that is not ASCII, or no body, an unbound variable.
pub open spec fn parse_text(text: Seq<char>, env: Env) -> Option<Option<LamTerm>>
    decreases text.len(),
{
    let t = trim(text);
    if t.len() == 0 {
        Some(None)
    } else if t[0] == '(' {
        let inner = t.drop_first();
        if inner.len() == 0 {
            None
        } else {
            let n = paren_scan(inner, 0, 1);
            proof {
                lemma_trim_len(text);
                lemma_paren_scan_bounds(inner, 0, 1);
                lemma_char_cut_bounds(inner, (n - 1) as nat);
                lemma_char_cut_bounds(inner, n);
            }
            match (char_cut(inner, (n - 1) as nat), char_cut(inner, n)) {
                (Some(a), Some(b)) => match parse_text(inner.take(a as int), env) {
                    Some(Some(f)) => match parse_text(inner.skip(b as int), env) {
                        None => None,
                        Some(None) => Some(Some(f)),
                        Some(Some(r)) => Some(
                            Some(LamTerm::Application(Box::new(f), Box::new(r))),
                        ),
                    },
                    _ => None,
                },
                _ => None,
            }
        }
    } else if t[0] == '%' {
        if t.len() < 2 || utf8_width(t[1]) != 1 {
            None
        } else {
            proof {
                lemma_trim_len(text);
            }
            match parse_text(t.skip(2), bind(env, t[1])) {
                Some(Some(body)) => Some(Some(LamTerm::Abstraction(1, Box::new(body)))),
                _ => None,
            }
        }
    } else if env.contains_key(t[0]) {
        Some(Some(LamTerm::Var(env[t[0]] as usize, 1)))
    } else {
        None
    }
}

/// `text` parses to a term in the empty environment.
pub open spec fn parses(text: Seq<char>) -> bool {
    parse_text(text, Map::empty()) matches Some(Some(_))
}

/// The term `text` parses to, where `parses(text)`.
pub open spec fn parsed(text: Seq<char>) -> LamTerm {
    parse_text(text, Map::empty())->Some_0->Some_0
}

/// Every abstraction of `t` binds one argument and every variable is the
/// first argument of its abstraction.
pub open spec fn unary(t: LamTerm) -> bool
    decreases t,
{
    match t {
        LamTerm::Abstraction(n, body) => n == 1 && unary(*body),
        LamTerm::Application(left, right) => unary(*left) && unary(*right),
        LamTerm::Var(_, k) => k == 1,
    }
}

/// The parser makes one-argument abstractions and first-argument variables
/// only.
pub proof fn law_parsed_terms_are_unary(text: Seq<char>, env: Env)
    ensures
        parse_text(text, env) matches Some(Some(t)) ==> unary(t),
    decreases text.len(),
{
    let t = trim(text);
    lemma_trim_len(text);
    if t.len() > 0 && t[0] == '(' && t.len() > 1 {
        let inner = t.drop_first();
        let n = paren_scan(inner, 0, 1);
        lemma_paren_scan_bounds(inner, 0, 1);
        lemma_char_cut_bounds(inner, (n - 1) as nat);
        lemma_char_cut_bounds(inner, n);
        if let (Some(a), Some(b)) = (char_cut(inner, (n - 1) as nat), char_cut(inner, n)) {
            law_parsed_terms_are_unary(inner.take(a as int), env);
            law_parsed_terms_are_unary(inner.skip(b as int), env);
        }
    } else if t.len() >= 2 && t[0] == '%' {
        law_parsed_terms_are_unary(t.skip(2), bind(env, t[1]));
    }
}

/// Inside `%x` the name `x` means the new binder only: an outer binding of
/// `x`, at whatever distance, changes nothing in what a text that starts with
/// `%x` parses to.
pub proof fn law_inner_binder_shadows(text: Seq<char>, env: Env, d: nat)
    requires
        trim(text).len() >= 2,
        trim(text)[0] == '%',
    ensures
        parse_text(text, env) == parse_text(text, env.insert(trim(text)[1], d)),
{
    let x = trim(text)[1];
    assert(bind(env, x) =~= bind(env.insert(x, d), x));
}

/// `%x x` is the identity in every environment: the innermost binder of a
/// name captures it, whatever the name is bound to outside.
pub proof fn law_binder_captures_its_name(x: char, env: Env)
    requires
        utf8_width(x) == 1,
        !is_space(x),
        x != '(',
        x != '%',
    ensures
        parse_text(seq!['%', x, x], env) == Some(
            Some(LamTerm::Abstraction(1, Box::new(LamTerm::Var(0, 1)))),
        ),
{
    let text = seq!['%', x, x];
    assert(trim_start(text) == text);
    assert(trim_end(text) == text);
    assert(text.skip(2) =~= seq![x]);
    let body = seq![x];
    assert(trim_start(body) == body);
    assert(trim_end(body) == body);
    assert(bind(env, x).contains_key(x) && bind(env, x)[x] == 0);
    assert(parse_text(body, bind(env, x)) == Some(Some(LamTerm::Var(0, 1))));
    assert(trim(text) == text);
    assert(text[0] == '%' && text[1] == x);
}

/// The depth change of the first `i` characters of `s`: one per `(`, minus
/// one per `)`.
pub open spec fn paren_balance(s: Seq<char>, i: int) -> int
    decreases i,
{
    if i <= 0 {
        0
    } else {
        paren_balance(s, i - 1) + if s[i - 1] == '(' {
            1int
        } else if s[i - 1] == ')' {
            -1int
        } else {
            0int
        }
    }
}

/// Every prefix of `s` opens at least as many parentheses as it closes, and
/// the whole of `s` as many as it closes.
pub open spec fn balanced(s: Seq<char>) -> bool {
    &&& forall|i: int| 0 <= i <= s.len() ==> #[trigger] paren_balance(s, i) >= 0
    &&& paren_balance(s, s.len() as int) == 0
}

proof fn lemma_wrapped_scan(s: Seq<char>, i: nat)
    requires
        balanced(s),
        i <= s.len(),
    ensures
        paren_scan(s.push(')'), i, (1 + paren_balance(s, i as int)) as nat) == s.len() + 1,
    decreases s.len() - i,
{
    let w = s.push(')');
    assert(paren_balance(s, i as int) >= 0);
    if i < s.len() {
        assert(w[i as int] == s[i as int]);
        assert(paren_balance(s, (i + 1) as int) >= 0);
        lemma_wrapped_scan(s, i + 1);
    }
}

proof fn lemma_ascii_cut(s: Seq<char>, k: nat)
    requires
        k <= s.len(),
        forall|i: int| 0 <= i < s.len() ==> utf8_width(#[trigger] s[i]) == 1,
    ensures
        char_cut(s, k) == Some(k),
    decreases s.len(),
{
    if k > 0 {
        assert(utf8_width(s[0]) == 1);
        assert forall|i: int| 0 <= i < s.drop_first().len() implies utf8_width(#[trigger] s.drop_first()[i]) == 1 by {
            assert(s.drop_first()[i] == s[i + 1]);
        }
        lemma_ascii_cut(s.drop_first(), (k - 1) as nat);
    }
}

/// Wrapping an ASCII text with balanced parentheses in one more pair changes
/// nothing: the two texts parse to the same term, or neither parses.
pub proof fn law_wrapping_in_parentheses(s: Seq<char>)
    requires
        forall|i: int| 0 <= i < s.len() ==> utf8_width(#[trigger] s[i]) == 1,
        balanced(s),
    ensures
        ({
            let w = seq!['('] + s + seq![')'];
            &&& parses(w) <==> parses(s)
            &&& parses(s) ==> parsed(w) == parsed(s)
        }),
{
    let w = seq!['('] + s + seq![')'];
    let inner = s.push(')');
    assert(w.drop_last() =~= seq!['('] + s);
    assert(trim_start(w) == w);
    assert(trim_end(w) == w);
    assert(w.drop_first() =~= inner);
    lemma_wrapped_scan(s, 0);
    assert(paren_scan(inner, 0, 1) == s.len() + 1);
    assert forall|i: int| 0 <= i < inner.len() implies utf8_width(#[trigger] inner[i]) == 1 by {
        if i < s.len() {
            assert(inner[i] == s[i]);
        }
    }
    lemma_ascii_cut(inner, s.len());
    lemma_ascii_cut(inner, s.len() + 1);
    assert(inner.take(s.len() as int) =~= s);
    assert(inner.skip((s.len() + 1) as int) =~= Seq::<char>::empty());
    assert(trim(Seq::<char>::empty()) =~= Seq::<char>::empty());
    assert(parse_text(Seq::<char>::empty(), Map::empty()) == Some(None::<LamTerm>));
}

/// The parser environment held in memory: one slot per ASCII character (only
/// ASCII characters can be bound).
pub open spec fn env_view(env: Seq<Option<usize>>) -> Env {
    Map::new(
        |c: char| 0 <= (c as int) < 128 && env[c as int] is Some,
        |c: char| env[c as int]->Some_0 as nat,
    )
}

/// Every binder distance in `env` is at most `bound`.
pub open spec fn env_below(env: Seq<Option<usize>>, bound: int) -> bool {
    &&& env.len() == 128
    &&& forall|i: int| 0 <= i < 128 ==> (#[trigger] env[i] matches Some(d) ==> d <= bound)
}

proof fn lemma_trim_start_step(s: Seq<char>, lo: int, hi: int)
    requires
        0 <= lo < hi <= s.len(),
        is_space(s[lo]),
    ensures
        trim_start(s.subrange(lo, hi)) == trim_start(s.subrange(lo + 1, hi)),
{
    assert(s.subrange(lo, hi).drop_first() =~= s.subrange(lo + 1, hi));
}

proof fn lemma_trim_end_step(s: Seq<char>, lo: int, hi: int)
    requires
        0 <= lo < hi <= s.len(),
        is_space(s[hi - 1]),
    ensures
        trim_end(s.subrange(lo, hi)) == trim_end(s.subrange(lo, hi - 1)),
{
    assert(s.subrange(lo, hi).drop_last() =~= s.subrange(lo, hi - 1));
}

fn white_space(c: char) -> (b: bool)
    ensures
        b == is_space(c),
{
    ('\u{9}' <= c && c <= '\u{d}') || c == ' ' || c == '\u{85}' || c == '\u{a0}' || c == '\u{1680}'
        || ('\u{2000}' <= c && c <= '\u{200a}') || c == '\u{2028}' || c == '\u{2029}' || c
        == '\u{202f}' || c == '\u{205f}' || c == '\u{3000}'
}

fn width(c: char) -> (w: usize)
    ensures
        w == utf8_width(c),
{
    if '\u{80}' > c {
        1
    } else if '\u{800}' > c {
        2
    } else if '\u{10000}' > c {
        3
    } else {
        4
    }
}

/// Finds the trimmed range of `chars[lo..hi]`.
fn trim_range(chars: &Vec<char>, lo: usize, hi: usize) -> (r: (usize, usize))
    requires
        lo <= hi <= chars@.len(),
    ensures
        lo <= r.0 <= r.1 <= hi,
        trim(chars@.subrange(lo as int, hi as int)) == chars@.subrange(r.0 as int, r.1 as int),
{
    let mut start = lo;
    while start < hi && white_space(chars[start])
        invariant
            lo <= start <= hi <= chars@.len(),
            trim_start(chars@.subrange(lo as int, hi as int)) == trim_start(
                chars@.subrange(start as int, hi as int),
            ),
        decreases hi - start,
    {
        proof {
            lemma_trim_start_step(chars@, start as int, hi as int);
        }
        start += 1;
    }
    assert(trim_start(chars@.subrange(start as int, hi as int)) == chars@.subrange(start as int, hi as int));
    let mut end = hi;
    while end > start && white_space(chars[end - 1])
        invariant
            lo <= start <= end <= hi <= chars@.len(),
            trim(chars@.subrange(lo as int, hi as int)) == trim_end(
                chars@.subrange(start as int, end as int),
            ),
        decreases end - start,
    {
        proof {
            lemma_trim_end_step(chars@, start as int, end as int);
        }
        end -= 1;
    }
    (start, end)
}

/// The number of characters of the parenthesised term that starts
/// `chars[lo..hi]`, as `paren_scan` counts it.
fn take_paren(chars: &Vec<char>, lo: usize, hi: usize) -> (n: usize)
    requires
        0 < lo < hi <= chars@.len(),
    ensures
        n == paren_scan(chars@.subrange(lo as int, hi as int), 0, 1),
{
    let ghost t = chars@.subrange(lo as int, hi as int);
    let mut i: usize = 0;
    let mut pc: usize = 1;
    while pc > 0 && i < hi - lo
        invariant
            0 < lo < hi <= chars@.len(),
            t == chars@.subrange(lo as int, hi as int),
            i <= hi - lo,
            pc <= i + 1,
            pc > 0 ==> paren_scan(t, 0, 1) == paren_scan(t, i as nat, pc as nat),
            pc == 0 ==> paren_scan(t, 0, 1) == i,
        decreases hi - lo - i, pc,
    {
        let c = chars[lo + i];
        if c == '(' {
            pc += 1;
        } else if c == ')' {
            pc -= 1;
        }
        i += 1;
    }
    i
}

/// The number of characters of `chars[lo..hi]` that make up its first `b`
/// bytes, as `char_cut` gives it.
fn cut(chars: &Vec<char>, lo: usize, hi: usize, b: usize) -> (r: Option<usize>)
    requires
        lo <= hi <= chars@.len(),
    ensures
        r == match char_cut(chars@.subrange(lo as int, hi as int), b as nat) {
            Some(j) => Some(j as usize),
            None => None::<usize>,
        },
{
    let ghost s = chars@.subrange(lo as int, hi as int);
    let mut j: usize = 0;
    let mut used: usize = 0;
    assert(s.skip(0) =~= s);
    while used < b
        invariant
            lo <= hi <= chars@.len(),
            s == chars@.subrange(lo as int, hi as int),
            j <= hi - lo,
            used <= b,
            j <= used,
            char_cut(s, b as nat) == match char_cut(s.skip(j as int), (b - used) as nat) {
                Some(k) => Some((k + j) as nat),
                None => None::<nat>,
            },
        decreases b - used,
    {
        if j == hi - lo {
            return None;
        }
        let w = width(chars[lo + j]);
        if w > b - used {
            return None;
        }
        proof {
            assert(s.skip(j as int).drop_first() =~= s.skip(j + 1));
        }
        used += w;
        j += 1;
    }
    Some(j)
}

/// The environment inside one more binder for the ASCII character `x`.
fn bind_env(env: &Vec<Option<usize>>, x: char, bound: usize) -> (inner: Vec<Option<usize>>)
    requires
        env_below(env@, bound as int),
        bound < usize::MAX,
        utf8_width(x) == 1,
    ensures
        env_below(inner@, bound + 1),
        env_view(inner@) == bind(env_view(env@), x),
{
    let mut inner: Vec<Option<usize>> = Vec::new();
    let mut i: usize = 0;
    while i < 128
        invariant
            0 <= i <= 128,
            inner@.len() == i,
            forall|j: int| 0 <= j < i ==> #[trigger] inner@[j] == match env@[j] {
                Some(d) => Some((d + 1) as usize),
                None => None::<usize>,
            },
            env_below(env@, bound as int),
            bound < usize::MAX,
        decreases 128 - i,
    {
        let slot = match env[i] {
            Some(d) => Some(d + 1),
            None => None,
        };
        inner.push(slot);
        i += 1;
    }
    assert((x as u32) < 128);
    let code = (x as u32) as usize;
    inner.set(code, Some(0));
    assert(code == x as int);
    assert forall|k: char| 0 <= (k as int) < 128 && k != x implies inner@[k as int] == match env@[k as int] {
        Some(d) => Some((d + 1) as usize),
        None => None::<usize>,
    } by {
        assert(k as int != x as int);
    }
    assert(env_view(inner@) =~= bind(env_view(env@), x));
    inner
}

/// Parses `chars[lo..hi]` in the environment `env`; `None` where the parser
/// fails.
fn parse_helper(chars: &Vec<char>, lo: usize, hi: usize, env: &Vec<Option<usize>>) -> (r: Option<Option<LamTerm>>)
    requires
        lo <= hi <= chars@.len(),
        env_below(env@, lo as int),
    ensures
        r == parse_text(chars@.subrange(lo as int, hi as int), env_view(env@)),
    decreases hi - lo,
{
    let ghost text = chars@.subrange(lo as int, hi as int);
    let (start, end) = trim_range(chars, lo, hi);
    let ghost t = chars@.subrange(start as int, end as int);
    if start == end {
        return Some(None);
    }
    assert(t[0] == chars@[start as int]);
    let c = chars[start];
    if c == '(' {
        if start + 1 == end {
            return None;
        }
        let ghost inner = t.drop_first();
        assert(inner =~= chars@.subrange(start + 1, end as int));
        let n = take_paren(chars, start + 1, end);
        proof {
            lemma_paren_scan_bounds(inner, 0, 1);
            lemma_char_cut_bounds(inner, (n - 1) as nat);
            lemma_char_cut_bounds(inner, n as nat);
        }
        let a = match cut(chars, start + 1, end, n - 1) {
            Some(a) => a,
            None => {
                return None;
            },
        };
        let b = match cut(chars, start + 1, end, n) {
            Some(b) => b,
            None => {
                return None;
            },
        };
        proof {
            assert(inner.take(a as int) =~= chars@.subrange(start + 1, start + 1 + a));
            assert(inner.skip(b as int) =~= chars@.subrange(start + 1 + b, end as int));
        }
        let term = match parse_helper(chars, start + 1, start + 1 + a, env) {
            Some(Some(f)) => f,
            _ => {
                return None;
            },
        };
        match parse_helper(chars, start + 1 + b, end, env) {
            None => None,
            Some(None) => Some(Some(term)),
            Some(Some(r)) => Some(Some(LamTerm::Application(Box::new(term), Box::new(r)))),
        }
    } else if c == '%' {
        if end - start < 2 {
            return None;
        }
        assert(t[1] == chars@[start + 1]);
        let lvar = chars[start + 1];
        if width(lvar) != 1 {
            return None;
        }
        let inner = bind_env(env, lvar, lo);
        assert(t.skip(2) =~= chars@.subrange(start + 2, end as int));
        match parse_helper(chars, start + 2, end, &inner) {
            Some(Some(body)) => Some(Some(LamTerm::Abstraction(1, Box::new(body)))),
            _ => None,
        }
    } else {
        match lookup(env, c) {
            Some(d) => Some(Some(LamTerm::Var(d, 1))),
            None => None,
        }
    }
}

/// The binder distance of `c` in `env`, if it is bound.
fn lookup(env: &Vec<Option<usize>>, c: char) -> (r: Option<usize>)
    requires
        env@.len() == 128,
    ensures
        r == (if env_view(env@).contains_key(c) {
            Some(env_view(env@)[c] as usize)
        } else {
            None
        }),
{
    if width(c) == 1 {
        assert((c as u32) < 128);
        let idx = (c as u32) as usize;
        assert(idx == c as int);
        env[idx]
    } else {
        None
    }
}

/// Builds the parser's empty environment.
fn empty_env() -> (env: Vec<Option<usize>>)
    ensures
        env_below(env@, 0),
        env_view(env@) == Map::<char, nat>::empty(),
{
    let mut env: Vec<Option<usize>> = Vec::new();
    let mut i: usize = 0;
    while i < 128
        invariant
            i <= 128,
            env@.len() == i,
            forall|j: int| 0 <= j < i ==> #[trigger] env@[j] is None,
        decreases 128 - i,
    {
        env.push(None);
        i += 1;
    }
    assert(env_view(env@) =~= Map::<char, nat>::empty()) by {
        assert forall|c: char| !env_view(env@).dom().contains(c) by {
            if 0 <= (c as int) < 128 {
                assert(env@[c as int] is None);
            }
        }
    }
    env
}

/// The characters of `text`.
fn text_chars(text: &str) -> (chars: Vec<char>)
    ensures
        chars@ == text@,
{
    let n = text.unicode_len();
    let mut chars: Vec<char> = Vec::new();
    let mut i: usize = 0;
    while i < n
        invariant
            i <= n,
            n == text@.len(),
            chars@ == text@.take(i as int),
        decreases n - i,
    {
        chars.push(text.get_char(i));
        i += 1;
        assert(chars@ =~= text@.take(i as int));
    }
    assert(text@.take(n as int) =~= text@);
    chars
}

impl LamTerm {
    /// Parses `text`, or gives `None` where `parse` would fail (see `parses`).
    pub fn try_parse(text: &str) -> (r: Option<LamTerm>)
        ensures
            match r {
                Some(t) => parses(text@) && t == parsed(text@),
                None => !parses(text@),
            },
    {
        let chars = text_chars(text);
        proof {
            assert(chars@.subrange(0, chars@.len() as int) =~= chars@);
        }
        let env = empty_env();
        match parse_helper(&chars, 0, chars.len(), &env) {
            Some(Some(t)) => Some(t),
            _ => None,
        }
    }

    /// Parses a term written with `%x body` for an abstraction of `x`,
    /// `(f) a` for an application and a single character for a variable.
    pub fn parse(text: &str) -> (t: LamTerm)
        requires
            parses(text@),
        ensures
            t == parsed(text@),
    {
        match LamTerm::try_parse(text) {
            Some(t) => t,
            None => {
                assert(false);
                LamTerm::Var(0, 0)
            },
        }
    }
}

} // verus!

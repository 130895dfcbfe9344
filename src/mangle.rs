//! Turning a definition's path into a Lean identifier.
use vstd::prelude::*;

verus! {

/// `::` replaced by `.`, left to right, without overlaps.
pub open spec fn replace_scope(s: Seq<char>) -> Seq<char>
    decreases s.len(),
{
    if s.len() == 0 {
        s
    } else if s.len() >= 2 && s[0] == ':' && s[1] == ':' {
        seq!['.'] + replace_scope(s.skip(2))
    } else {
        seq![s[0]] + replace_scope(s.skip(1))
    }
}

pub open spec fn is_guard(c: char) -> bool {
    c == '«' || c == '»'
}

/// The characters of `s` without the quoting guillemets.
pub open spec fn strip_guards(s: Seq<char>) -> Seq<char>
    decreases s.len(),
{
    if s.len() == 0 {
        s
    } else if is_guard(s[0]) {
        strip_guards(s.skip(1))
    } else {
        seq![s[0]] + strip_guards(s.skip(1))
    }
}

pub open spec fn is_ascii_letter(c: char) -> bool {
    ('a' <= c && c <= 'z') || ('A' <= c && c <= 'Z')
}

pub open spec fn is_ident_start(c: char) -> bool {
    c == '_' || is_ascii_letter(c)
}

pub open spec fn is_ident_rest(c: char) -> bool {
    c == '_' || c == '\'' || is_ascii_letter(c) || ('0' <= c && c <= '9')
}

/// The identifier grammar `(_|letter)(_|'|letter|digit)*`.
pub open spec fn is_lean_ident(s: Seq<char>) -> bool {
    &&& s.len() > 0
    &&& is_ident_start(s[0])
    &&& forall|i: int| 1 <= i < s.len() ==> is_ident_rest(#[trigger] s[i])
}

pub open spec fn constructor_marker() -> Seq<char> {
    seq!['{', '{', 'c', 'o', 'n', 's', 't', 'r', 'u', 'c', 't', 'o', 'r', '}', '}']
}

/// Words that Lean reserves although they match the identifier grammar.
pub open spec fn is_reserved_word(s: Seq<char>) -> bool {
    ||| s == seq!['T', 'y', 'p', 'e']
    ||| s == seq!['a', 't']
    ||| s == seq!['b', 'y']
    ||| s == seq!['e', 'n', 'd']
    ||| s == seq!['f', 'r', 'o', 'm']
    ||| s == seq!['p', 'r', 'i', 'v', 'a', 't', 'e']
}

/// Lean reserves names that start with `_`: such a name gets a leading `$`.
pub open spec fn escape(p: Seq<char>) -> Seq<char> {
    if p.len() > 0 && p[0] == '_' {
        seq!['$'] + p
    } else {
        p
    }
}

pub open spec fn quote(p: Seq<char>) -> Seq<char> {
    seq!['«'] + p + seq!['»']
}

/// One path segment as a Lean name component.
pub open spec fn mangle_segment(seg: Seq<char>) -> Seq<char> {
    let p = strip_guards(replace_scope(seg));
    if p == constructor_marker() {
        seq!['m', 'k']
    } else if is_reserved_word(p) || !is_lean_ident(p) {
        quote(escape(p))
    } else {
        escape(p)
    }
}

/// The parts joined, with `sep` between two neighbours.
pub open spec fn join_with(parts: Seq<Seq<char>>, sep: char) -> Seq<char>
    decreases parts.len(),
{
    if parts.len() == 0 {
        Seq::empty()
    } else if parts.len() == 1 {
        parts[0]
    } else {
        join_with(parts.drop_last(), sep) + seq![sep] + parts.last()
    }
}

/// The Lean name of a path: each segment mangled on its own, joined by `.`.
pub open spec fn mangle(parts: Seq<Seq<char>>) -> Seq<char> {
    join_with(parts.map_values(|p: Seq<char>| mangle_segment(p)), '.')
}

pub open spec fn views(parts: Seq<String>) -> Seq<Seq<char>> {
    parts.map_values(|s: String| s@)
}

pub open spec fn no_guards(s: Seq<char>) -> bool {
    forall|i: int| 0 <= i < s.len() ==> !is_guard(#[trigger] s[i])
}

proof fn lemma_replace_scope_push(s: Seq<char>, c: char)
    requires
        c != ':',
    ensures
        replace_scope(s + seq![c]) == replace_scope(s) + seq![c],
    decreases s.len(),
{
    let t = s + seq![c];
    if s.len() == 0 {
        assert(t.skip(1) =~= Seq::<char>::empty());
        assert(t[0] == c);
        assert(replace_scope(t.skip(1)) == Seq::<char>::empty());
        assert(replace_scope(t) =~= seq![c]);
        assert(replace_scope(s) == s);
        assert(replace_scope(s) + seq![c] =~= seq![c]);
    } else if s.len() >= 2 && s[0] == ':' && s[1] == ':' {
        assert(t.skip(2) =~= s.skip(2) + seq![c]);
        lemma_replace_scope_push(s.skip(2), c);
        assert(replace_scope(t) =~= replace_scope(s) + seq![c]);
    } else {
        assert(t.skip(1) =~= s.skip(1) + seq![c]);
        lemma_replace_scope_push(s.skip(1), c);
        assert(replace_scope(t) =~= replace_scope(s) + seq![c]);
    }
}

proof fn lemma_strip_guards_push(s: Seq<char>, c: char)
    ensures
        strip_guards(s + seq![c]) == if is_guard(c) {
            strip_guards(s)
        } else {
            strip_guards(s) + seq![c]
        },
    decreases s.len(),
{
    let t = s + seq![c];
    if s.len() == 0 {
        assert(t.skip(1) =~= Seq::<char>::empty());
        assert(t[0] == c);
        assert(strip_guards(t.skip(1)) == Seq::<char>::empty());
        assert(strip_guards(s) == s);
        assert(strip_guards(s) + seq![c] =~= seq![c]);
        assert(strip_guards(t) =~= (if is_guard(c) { strip_guards(s) } else { strip_guards(s) + seq![c] }));
    } else {
        assert(t.skip(1) =~= s.skip(1) + seq![c]);
        lemma_strip_guards_push(s.skip(1), c);
        assert(strip_guards(t) =~= (if is_guard(c) { strip_guards(s) } else { strip_guards(s) + seq![c] }));
    }
}

proof fn lemma_strip_guards_clean(s: Seq<char>)
    ensures
        no_guards(strip_guards(s)),
    decreases s.len(),
{
    if s.len() > 0 {
        lemma_strip_guards_clean(s.skip(1));
        let r = strip_guards(s.skip(1));
        if !is_guard(s[0]) {
            assert forall|i: int| 0 <= i < r.len() + 1 implies !is_guard(#[trigger] (seq![s[0]] + r)[i]) by {
                if i > 0 {
                    assert((seq![s[0]] + r)[i] == r[i - 1]);
                }
            };
        }
    }
}

proof fn lemma_plain_unchanged(s: Seq<char>)
    requires
        no_guards(s),
        forall|i: int| 0 <= i < s.len() ==> #[trigger] s[i] != ':',
    ensures
        replace_scope(s) == s,
        strip_guards(s) == s,
    decreases s.len(),
{
    if s.len() > 0 {
        let t = s.skip(1);
        assert forall|i: int| 0 <= i < t.len() implies #[trigger] t[i] != ':' && !is_guard(t[i]) by {
            assert(t[i] == s[i + 1]);
        };
        lemma_plain_unchanged(t);
        assert(seq![s[0]] + t =~= s);
    }
}

/// A segment already quoted in guillemets mangles as the bare segment: the
/// guards are stripped and put back, never piled up.
pub proof fn lemma_quoted_segment(s: Seq<char>)
    ensures
        mangle_segment(quote(s)) == mangle_segment(s),
{
    let q = quote(s);
    let open_s = seq!['«'] + s;
    assert(q =~= open_s + seq!['»']);
    lemma_replace_scope_push(open_s, '»');
    assert(open_s.skip(1) =~= s);
    let r = replace_scope(s);
    assert(replace_scope(open_s) == seq!['«'] + r);
    lemma_strip_guards_push(seq!['«'] + r, '»');
    assert((seq!['«'] + r).skip(1) =~= r);
    assert(strip_guards(replace_scope(q)) == strip_guards(r));
}

/// No guillemet stands inside a mangled segment: at most one opens it and
/// one closes it.
pub proof fn lemma_segment_guards(s: Seq<char>)
    ensures
        forall|i: int|
            0 < i < mangle_segment(s).len() - 1 ==> !is_guard(#[trigger] mangle_segment(s)[i]),
{
    let p = strip_guards(replace_scope(s));
    lemma_strip_guards_clean(replace_scope(s));
    let e = escape(p);
    assert(no_guards(e)) by {
        if p.len() > 0 && p[0] == '_' {
            assert forall|i: int| 0 <= i < e.len() implies !is_guard(#[trigger] e[i]) by {
                if i > 0 {
                    assert(e[i] == p[i - 1]);
                }
            };
        }
    };
    let m = mangle_segment(s);
    assert forall|i: int| 0 < i < m.len() - 1 implies !is_guard(#[trigger] m[i]) by {
        if p == constructor_marker() {
        } else if is_reserved_word(p) || !is_lean_ident(p) {
            assert(m[i] == e[i - 1]);
        } else {
            assert(m[i] == e[i]);
        }
    };
}

/// A reserved word is always quoted, although it matches the identifier
/// grammar.
pub proof fn lemma_reserved_quoted(s: Seq<char>)
    requires
        is_reserved_word(s),
    ensures
        mangle_segment(s) == quote(s),
{
    assert(no_guards(s) && forall|i: int| 0 <= i < s.len() ==> #[trigger] s[i] != ':');
    lemma_plain_unchanged(s);
    assert(s.len() != constructor_marker().len());
}

/// Relies on std's `FromIterator<char>` for `String`: the string holds the
/// characters in order.
#[verifier::external_body]
pub(crate) fn string_of_chars(v: &Vec<char>) -> (r: String)
    ensures
        r@ == v@,
{
    v.iter().collect()
}

pub(crate) fn chars_of(s: &str) -> (r: Vec<char>)
    ensures
        r@ == s@,
{
    let n = s.unicode_len();
    let mut out: Vec<char> = Vec::new();
    let mut i: usize = 0;
    while i < n
        invariant
            n == s@.len(),
            i <= n,
            out@ == s@.take(i as int),
        decreases n - i,
    {
        out.push(s.get_char(i));
        i += 1;
        assert(out@ =~= s@.take(i as int));
    }
    assert(out@ =~= s@);
    out
}

fn replace_scope_exec(s: &Vec<char>) -> (r: Vec<char>)
    ensures
        r@ == replace_scope(s@),
{
    let mut out: Vec<char> = Vec::new();
    let mut i: usize = 0;
    assert(s@.skip(0) =~= s@);
    assert(out@ + replace_scope(s@) =~= replace_scope(s@));
    while i < s.len()
        invariant
            i <= s.len(),
            replace_scope(s@) == out@ + replace_scope(s@.skip(i as int)),
        decreases s.len() - i,
    {
        let ghost rest = s@.skip(i as int);
        if i + 1 < s.len() && s[i] == ':' && s[i + 1] == ':' {
            out.push('.');
            assert(rest.skip(2) =~= s@.skip(i + 2));
            i += 2;
        } else {
            out.push(s[i]);
            assert(rest.skip(1) =~= s@.skip(i + 1));
            i += 1;
        }
        assert(replace_scope(rest) == out@.subrange(out@.len() - 1, out@.len() as int)
            + replace_scope(s@.skip(i as int)));
        assert(out@ =~= out@.subrange(0, out@.len() - 1) + out@.subrange(
            out@.len() - 1,
            out@.len() as int,
        ));
    }
    assert(s@.skip(i as int) =~= Seq::<char>::empty());
    assert(out@ + Seq::<char>::empty() =~= out@);
    out
}

fn strip_guards_exec(s: &Vec<char>) -> (r: Vec<char>)
    ensures
        r@ == strip_guards(s@),
{
    let mut out: Vec<char> = Vec::new();
    let mut i: usize = 0;
    assert(s@.skip(0) =~= s@);
    assert(out@ + strip_guards(s@) =~= strip_guards(s@));
    while i < s.len()
        invariant
            i <= s.len(),
            strip_guards(s@) == out@ + strip_guards(s@.skip(i as int)),
        decreases s.len() - i,
    {
        let ghost rest = s@.skip(i as int);
        let ghost before = out@;
        assert(rest.skip(1) =~= s@.skip(i + 1));
        let c = s[i];
        if c != '«' && c != '»' {
            out.push(c);
            assert(out@ + strip_guards(s@.skip(i + 1)) =~= before + strip_guards(rest));
        }
        i += 1;
    }
    assert(s@.skip(i as int) =~= Seq::<char>::empty());
    assert(out@ + Seq::<char>::empty() =~= out@);
    out
}

fn is_letter(c: char) -> (r: bool)
    ensures
        r == is_ascii_letter(c),
{
    ('a' <= c && c <= 'z') || ('A' <= c && c <= 'Z')
}

fn is_lean_ident_exec(p: &Vec<char>) -> (r: bool)
    ensures
        r == is_lean_ident(p@),
{
    if p.len() == 0 || !(p[0] == '_' || is_letter(p[0])) {
        return false;
    }
    let mut i: usize = 1;
    while i < p.len()
        invariant
            1 <= i <= p.len(),
            forall|j: int| 1 <= j < i ==> is_ident_rest(#[trigger] p@[j]),
        decreases p.len() - i,
    {
        let c = p[i];
        if !(c == '_' || c == '\'' || is_letter(c) || ('0' <= c && c <= '9')) {
            return false;
        }
        i += 1;
    }
    true
}

fn equals_word(p: &Vec<char>, w: &[char]) -> (r: bool)
    ensures
        r == (p@ == w@),
{
    if p.len() != w.len() {
        return false;
    }
    let mut i: usize = 0;
    while i < p.len()
        invariant
            p@.len() == w@.len(),
            i <= p.len(),
            forall|j: int| 0 <= j < i ==> p@[j] == w@[j],
        decreases p.len() - i,
    {
        if p[i] != w[i] {
            return false;
        }
        i += 1;
    }
    assert(p@ =~= w@);
    true
}

fn is_reserved_exec(p: &Vec<char>) -> (r: bool)
    ensures
        r == is_reserved_word(p@),
{
    let w0: [char; 4] = ['T', 'y', 'p', 'e'];
    let w1: [char; 2] = ['a', 't'];
    let w2: [char; 2] = ['b', 'y'];
    let w3: [char; 3] = ['e', 'n', 'd'];
    let w4: [char; 4] = ['f', 'r', 'o', 'm'];
    let w5: [char; 7] = ['p', 'r', 'i', 'v', 'a', 't', 'e'];
    assert(w0@ =~= seq!['T', 'y', 'p', 'e']);
    assert(w1@ =~= seq!['a', 't']);
    assert(w2@ =~= seq!['b', 'y']);
    assert(w3@ =~= seq!['e', 'n', 'd']);
    assert(w4@ =~= seq!['f', 'r', 'o', 'm']);
    assert(w5@ =~= seq!['p', 'r', 'i', 'v', 'a', 't', 'e']);
    equals_word(p, &w0) || equals_word(p, &w1) || equals_word(p, &w2) || equals_word(p, &w3)
        || equals_word(p, &w4) || equals_word(p, &w5)
}

/// Appends the mangled form of one segment to `out`.
fn push_segment(out: &mut Vec<char>, seg: &str)
    ensures
        final(out)@ == old(out)@ + mangle_segment(seg@),
{
    let p = strip_guards_exec(&replace_scope_exec(&chars_of(seg)));
    let ctor: [char; 15] = ['{', '{', 'c', 'o', 'n', 's', 't', 'r', 'u', 'c', 't', 'o', 'r', '}', '}'];
    assert(ctor@ =~= constructor_marker());
    let ghost start = out@;
    if equals_word(&p, &ctor) {
        out.push('m');
        out.push('k');
        assert(out@ =~= start + seq!['m', 'k']);
        return;
    }
    let quoted = is_reserved_exec(&p) || !is_lean_ident_exec(&p);
    if quoted {
        out.push('«');
    }
    if p.len() > 0 && p[0] == '_' {
        out.push('$');
    }
    let mut i: usize = 0;
    let ghost mid = out@;
    while i < p.len()
        invariant
            i <= p.len(),
            out@ == mid + p@.take(i as int),
        decreases p.len() - i,
    {
        out.push(p[i]);
        i += 1;
        assert(out@ =~= mid + p@.take(i as int));
    }
    assert(p@.take(i as int) =~= p@);
    if quoted {
        out.push('»');
        assert(out@ =~= start + quote(escape(p@)));
    } else {
        assert(out@ =~= start + escape(p@));
    }
}

/// The Lean name of a Rust path, given as its segments:
/// `std::[T]` becomes `std.«[T]»`.
pub fn mk_lean_name_from_parts(parts: &[String]) -> (r: String)
    ensures
        r@ == mangle(views(parts@)),
{
    let mut out: Vec<char> = Vec::new();
    let mut i: usize = 0;
    let ghost whole = views(parts@).map_values(|p: Seq<char>| mangle_segment(p));
    while i < parts.len()
        invariant
            i <= parts.len(),
            whole == views(parts@).map_values(|p: Seq<char>| mangle_segment(p)),
            out@ == join_with(whole.take(i as int), '.'),
        decreases parts.len() - i,
    {
        assert(whole.take(i + 1).drop_last() =~= whole.take(i as int));
        if i > 0 {
            out.push('.');
        }
        push_segment(&mut out, parts[i].as_str());
        i += 1;
        assert(whole.take(i as int).last() == mangle_segment(parts@[i - 1]@));
        assert(i == 1 ==> whole.take(i as int)[0] == mangle_segment(parts@[0]@));
        assert(i == 1 ==> out@ =~= whole.take(i as int)[0]);
    }
    assert(whole.take(i as int) =~= whole);
    string_of_chars(&out)
}

} // verus!

//! The path addresser: a deterministic, reversible string key for a value's
//! position inside the JSON tree.
//!
//! Object descent is written `->` and array descent `[i]`, so the route
//! root -> "items" -> 0 -> "name" becomes `items[0]->name`. Keys are
//! injective over well-formed step sequences (object keys that are nonempty
//! and free of `[`, `]` and the `->` pair); an object key containing the
//! reserved delimiters is a documented limitation of the scheme, not
//! silently corrected.

use vstd::prelude::*;

verus! {

/// One step of a route from the root: an object key or an array index.
#[verifier::ext_equal]
pub enum StepV {
    Key(Seq<char>),
    Index(nat),
}

/// The executable form of a step.
pub enum Step {
    Key(String),
    Index(usize),
}

impl View for Step {
    type V = StepV;

    open spec fn view(&self) -> StepV {
        match self {
            Step::Key(k) => StepV::Key(k@),
            Step::Index(i) => StepV::Index(*i as nat),
        }
    }
}

pub open spec fn steps_view(s: Seq<Step>) -> Seq<StepV> {
    s.map_values(|st: Step| st@)
}

/// An object key the scheme can address reversibly: nonempty, no `[`, no
/// `]`, and never the two characters `->` in a row.
pub open spec fn key_ok(k: Seq<char>) -> bool {
    &&& k.len() > 0
    &&& forall|i: int| 0 <= i < k.len() ==> #[trigger] k[i] != '[' && k[i] != ']'
    &&& forall|i: int| 0 <= i < k.len() - 1 ==> !(#[trigger] k[i] == '-' && k[i + 1] == '>')
}

pub open spec fn step_ok(s: StepV) -> bool {
    match s {
        StepV::Key(k) => key_ok(k),
        StepV::Index(_) => true,
    }
}

pub open spec fn wf_path(p: Seq<StepV>) -> bool {
    forall|i: int| 0 <= i < p.len() ==> step_ok(#[trigger] p[i])
}

pub open spec fn digit_char(d: nat) -> char {
    if d == 0 { '0' }
    else if d == 1 { '1' }
    else if d == 2 { '2' }
    else if d == 3 { '3' }
    else if d == 4 { '4' }
    else if d == 5 { '5' }
    else if d == 6 { '6' }
    else if d == 7 { '7' }
    else if d == 8 { '8' }
    else { '9' }
}

pub open spec fn is_digit(c: char) -> bool {
    c == '0' || c == '1' || c == '2' || c == '3' || c == '4' || c == '5' || c == '6' || c == '7'
        || c == '8' || c == '9'
}

pub open spec fn digit_val(c: char) -> nat {
    if c == '0' { 0 }
    else if c == '1' { 1 }
    else if c == '2' { 2 }
    else if c == '3' { 3 }
    else if c == '4' { 4 }
    else if c == '5' { 5 }
    else if c == '6' { 6 }
    else if c == '7' { 7 }
    else if c == '8' { 8 }
    else { 9 }
}

/// The decimal digits of `n`, most significant first.
pub open spec fn digits_of(n: nat) -> Seq<char>
    decreases n,
{
    if n < 10 { seq![digit_char(n)] } else { digits_of(n / 10).push(digit_char(n % 10)) }
}

/// The encoding of a step that does not open the key: `->k` or `[i]`.
pub open spec fn enc_step(s: StepV) -> Seq<char> {
    match s {
        StepV::Key(k) => seq!['-', '>'] + k,
        StepV::Index(i) => seq!['['] + digits_of(i) + seq![']'],
    }
}

/// The encoding of the first step: a bare key, or `[i]`.
pub open spec fn enc_first(s: StepV) -> Seq<char> {
    match s {
        StepV::Key(k) => k,
        StepV::Index(_) => enc_step(s),
    }
}

pub open spec fn enc_rest(p: Seq<StepV>) -> Seq<char>
    decreases p.len(),
{
    if p.len() == 0 {
        Seq::empty()
    } else {
        enc_step(p[0]) + enc_rest(p.subrange(1, p.len() as int))
    }
}

/// The path key of a step sequence. The empty sequence (the root itself is a
/// leaf) is the empty key.
pub open spec fn key_of(p: Seq<StepV>) -> Seq<char> {
    if p.len() == 0 {
        Seq::empty()
    } else {
        enc_first(p[0]) + enc_rest(p.subrange(1, p.len() as int))
    }
}

/// Appending a step extends the key by that step's encoding.
pub proof fn lemma_key_of_push(p: Seq<StepV>, s: StepV)
    ensures
        key_of(p.push(s)) == if p.len() == 0 { enc_first(s) } else { key_of(p) + enc_step(s) },
    decreases p.len(),
{
    let q = p.push(s);
    if p.len() == 0 {
        assert(q.subrange(1, q.len() as int) =~= Seq::<StepV>::empty());
        assert(key_of(q) =~= enc_first(s));
    } else {
        lemma_enc_rest_push(p.subrange(1, p.len() as int), s);
        assert(q.subrange(1, q.len() as int) =~= p.subrange(1, p.len() as int).push(s));
        assert(q[0] == p[0]);
        assert(key_of(q) =~= key_of(p) + enc_step(s));
    }
}

pub proof fn lemma_enc_rest_push(p: Seq<StepV>, s: StepV)
    ensures
        enc_rest(p.push(s)) == enc_rest(p) + enc_step(s),
    decreases p.len(),
{
    let q = p.push(s);
    if p.len() == 0 {
        assert(q.subrange(1, q.len() as int) =~= Seq::<StepV>::empty());
        assert(q[0] == s);
        assert(enc_rest(q) == enc_step(s) + enc_rest(Seq::<StepV>::empty()));
        assert(enc_step(s) + Seq::<char>::empty() =~= enc_step(s));
        assert(enc_rest(p) + enc_step(s) =~= enc_step(s));
    } else {
        lemma_enc_rest_push(p.subrange(1, p.len() as int), s);
        assert(q.subrange(1, q.len() as int) =~= p.subrange(1, p.len() as int).push(s));
        assert(enc_rest(q) =~= enc_rest(p) + enc_step(s));
    }
}

/// Numeric value of a digit string, most significant first.
pub open spec fn val_of(s: Seq<char>) -> nat
    decreases s.len(),
{
    if s.len() == 0 {
        0
    } else {
        val_of(s.drop_last()) * 10 + digit_val(s.last())
    }
}

/// Position of the first step boundary (a `[` or a `->` pair) in `k`, or
/// `k.len()` if there is none.
pub open spec fn key_end0(k: Seq<char>) -> int
    decreases k.len(),
{
    if k.len() == 0 {
        0
    } else if k[0] == '[' {
        0
    } else if k.len() >= 2 && k[0] == '-' && k[1] == '>' {
        0
    } else {
        1 + key_end0(k.subrange(1, k.len() as int))
    }
}

/// Position of the first `]` in `k`, or `k.len()` if there is none.
pub open spec fn find_close(k: Seq<char>) -> int
    decreases k.len(),
{
    if k.len() == 0 {
        0
    } else if k[0] == ']' {
        0
    } else {
        1 + find_close(k.subrange(1, k.len() as int))
    }
}

pub proof fn lemma_key_end0_bounds(k: Seq<char>)
    ensures
        0 <= key_end0(k) <= k.len(),
    decreases k.len(),
{
    if k.len() != 0 && k[0] != '[' && !(k.len() >= 2 && k[0] == '-' && k[1] == '>') {
        lemma_key_end0_bounds(k.subrange(1, k.len() as int));
    }
}

pub proof fn lemma_find_close_bounds(k: Seq<char>)
    ensures
        0 <= find_close(k) <= k.len(),
    decreases k.len(),
{
    if k.len() != 0 && k[0] != ']' {
        lemma_find_close_bounds(k.subrange(1, k.len() as int));
    }
}

/// The steps read from a key after its first step: each further step is a
/// `->`-led key or a bracketed index.
pub open spec fn steps_rest(k: Seq<char>) -> Seq<StepV>
    decreases k.len(),
    via steps_rest_dec
{
    if k.len() == 0 {
        Seq::empty()
    } else if k[0] == '[' {
        let body = k.subrange(1, k.len() as int);
        let j = find_close(body);
        let step = StepV::Index(val_of(body.subrange(0, j)));
        if j >= body.len() {
            seq![step]
        } else {
            seq![step] + steps_rest(body.subrange(j + 1, body.len() as int))
        }
    } else if k.len() >= 2 && k[0] == '-' && k[1] == '>' {
        let body = k.subrange(2, k.len() as int);
        let e = key_end0(body);
        seq![StepV::Key(body.subrange(0, e))] + steps_rest(body.subrange(e, body.len() as int))
    } else {
        let e = key_end0(k);
        if e <= 0 {
            seq![StepV::Key(k)]
        } else {
            seq![StepV::Key(k.subrange(0, e))] + steps_rest(k.subrange(e, k.len() as int))
        }
    }
}

#[via_fn]
proof fn steps_rest_dec(k: Seq<char>) {
    if k.len() != 0 {
        if k[0] == '[' {
            lemma_find_close_bounds(k.subrange(1, k.len() as int));
        } else if k.len() >= 2 && k[0] == '-' && k[1] == '>' {
            lemma_key_end0_bounds(k.subrange(2, k.len() as int));
        } else {
            lemma_key_end0_bounds(k);
        }
    }
}

/// The steps read back from a whole path key: `stepsFor` in mathematical
/// form, the inverse of `key_of` on well-formed paths.
pub open spec fn steps_of(k: Seq<char>) -> Seq<StepV> {
    if k.len() == 0 {
        Seq::empty()
    } else if k[0] == '[' || (k.len() >= 2 && k[0] == '-' && k[1] == '>') {
        steps_rest(k)
    } else {
        let e = key_end0(k);
        if e <= 0 {
            seq![StepV::Key(k)]
        } else {
            seq![StepV::Key(k.subrange(0, e))] + steps_rest(k.subrange(e, k.len() as int))
        }
    }
}

pub proof fn lemma_digits_of_digits(n: nat)
    ensures
        digits_of(n).len() >= 1,
        forall|i: int| 0 <= i < digits_of(n).len() ==> is_digit(#[trigger] digits_of(n)[i]),
    decreases n,
{
    if n >= 10 {
        lemma_digits_of_digits(n / 10);
    }
}

pub proof fn lemma_val_of_digits(n: nat)
    ensures
        val_of(digits_of(n)) == n,
    decreases n,
{
    if n < 10 {
        let s = seq![digit_char(n)];
        assert(s.drop_last() =~= Seq::<char>::empty());
        assert(val_of(Seq::<char>::empty()) == 0);
        assert(val_of(s) == digit_val(digit_char(n)));
    } else {
        lemma_val_of_digits(n / 10);
        let s = digits_of(n / 10).push(digit_char(n % 10));
        assert(s.drop_last() =~= digits_of(n / 10));
        assert(s.last() == digit_char(n % 10));
        assert(digit_val(digit_char(n % 10)) == n % 10);
        assert(val_of(s) == (n / 10) * 10 + n % 10);
    }
}

/// Scanning a concatenation whose head holds no boundary and whose tail
/// opens with one (or is empty) stops exactly at the junction.
pub proof fn lemma_key_end0_concat(a: Seq<char>, b: Seq<char>)
    requires
        key_ok(a),
        b.len() == 0 || b[0] == '[' || (b.len() >= 2 && b[0] == '-' && b[1] == '>'),
    ensures
        key_end0(a + b) == a.len(),
    decreases a.len(),
{
    let k = a + b;
    assert(k[0] == a[0]);
    assert(a[0] != '[');
    if k.len() >= 2 && k[0] == '-' && k[1] == '>' {
        if a.len() >= 2 {
            assert(k[1] == a[1]);
            assert(false);
        } else {
            assert(k[1] == b[0]);
            assert(b[0] == '>');
            assert(false);
        }
    }
    if a.len() == 1 {
        assert(k.subrange(1, k.len() as int) =~= b);
        if b.len() != 0 {
            if b[0] == '[' {
                assert(key_end0(b) == 0);
            } else {
                assert(key_end0(b) == 0);
            }
        } else {
            assert(key_end0(Seq::<char>::empty()) == 0);
        }
        assert(k.len() != 0);
        assert(k[0] != '[');
        assert(!(k.len() >= 2 && k[0] == '-' && k[1] == '>'));
        assert(key_end0(k) == 1 + key_end0(k.subrange(1, k.len() as int)));
        assert(key_end0(k) == 1);
    } else {
        let a2 = a.subrange(1, a.len() as int);
        assert(key_ok(a2)) by {
            assert(forall|i: int| 0 <= i < a2.len() ==> a2[i] == a[i + 1]);
        }
        lemma_key_end0_concat(a2, b);
        assert(k.subrange(1, k.len() as int) =~= a2 + b);
        assert(key_end0(k) == 1 + key_end0(a2 + b));
    }
}

/// Scanning for `]` in a concatenation whose head is all digits and whose
/// tail opens with `]` stops exactly at the junction.
pub proof fn lemma_find_close_concat(a: Seq<char>, b: Seq<char>)
    requires
        forall|i: int| 0 <= i < a.len() ==> is_digit(#[trigger] a[i]),
        b.len() >= 1,
        b[0] == ']',
    ensures
        find_close(a + b) == a.len(),
    decreases a.len(),
{
    let k = a + b;
    if a.len() == 0 {
        assert(k =~= b);
    } else {
        assert(k[0] == a[0]);
        assert(is_digit(a[0]));
        assert(k[0] != ']');
        let a2 = a.subrange(1, a.len() as int);
        lemma_find_close_concat(a2, b);
        assert(k.subrange(1, k.len() as int) =~= a2 + b);
    }
}

/// The encoding of a rest-path is empty or opens with a boundary.
pub proof fn lemma_enc_rest_shape(p: Seq<StepV>)
    ensures
        enc_rest(p).len() == 0 || enc_rest(p)[0] == '[' || (enc_rest(p).len() >= 2
            && enc_rest(p)[0] == '-' && enc_rest(p)[1] == '>'),
{
    if p.len() != 0 {
        match p[0] {
            StepV::Key(k) => {
                assert(enc_rest(p)[0] == '-');
                assert(enc_rest(p)[1] == '>');
            }
            StepV::Index(n) => {
                assert(enc_rest(p)[0] == '[');
            }
        }
    }
}

/// Reading back the encoding of a rest-path yields that path.
pub proof fn lemma_steps_rest_enc(p: Seq<StepV>)
    requires
        wf_path(p),
    ensures
        steps_rest(enc_rest(p)) == p,
    decreases p.len(),
{
    if p.len() == 0 {
        assert(steps_rest(enc_rest(p)) =~= p);
    } else {
        let p2 = p.subrange(1, p.len() as int);
        assert(wf_path(p2)) by {
            assert(forall|i: int| 0 <= i < p2.len() ==> p2[i] == p[i + 1]);
        }
        let e2 = enc_rest(p2);
        lemma_enc_rest_shape(p2);
        lemma_steps_rest_enc(p2);
        let t = enc_rest(p);
        assert(t == enc_step(p[0]) + e2);
        match p[0] {
            StepV::Key(k) => {
                assert(key_ok(k));
                assert(t[0] == '-');
                assert(t[1] == '>');
                assert(t[0] != '[');
                assert(t.len() >= 2);
                let body = t.subrange(2, t.len() as int);
                assert(body =~= k + e2);
                lemma_key_end0_concat(k, e2);
                let e = key_end0(body);
                assert(e == k.len());
                assert(body.subrange(0, e) =~= k);
                assert(body.subrange(e, body.len() as int) =~= e2);
                assert(steps_rest(t) == seq![StepV::Key(k)] + p2);
                assert(seq![StepV::Key(k)] + p2 =~= p);
            }
            StepV::Index(n) => {
                let d = digits_of(n);
                lemma_digits_of_digits(n);
                assert(t[0] == '[');
                let body = t.subrange(1, t.len() as int);
                assert(body =~= d + (seq![']'] + e2));
                lemma_find_close_concat(d, seq![']'] + e2);
                let j = find_close(body);
                assert(j == d.len());
                assert(body.subrange(0, j) =~= d);
                lemma_val_of_digits(n);
                assert(j < body.len());
                assert(body.subrange(j + 1, body.len() as int) =~= e2);
                assert(steps_rest(t) == seq![StepV::Index(n)] + p2);
                assert(seq![StepV::Index(n)] + p2 =~= p);
            }
        }
    }
}

/// The decode of an encode: reading the key of a well-formed path yields
/// the path itself, exactly.
pub proof fn lemma_steps_of_key_of(p: Seq<StepV>)
    requires
        wf_path(p),
    ensures
        steps_of(key_of(p)) == p,
{
    if p.len() == 0 {
        assert(steps_of(key_of(p)) =~= p);
    } else {
        let p2 = p.subrange(1, p.len() as int);
        assert(wf_path(p2)) by {
            assert(forall|i: int| 0 <= i < p2.len() ==> p2[i] == p[i + 1]);
        }
        let e2 = enc_rest(p2);
        lemma_enc_rest_shape(p2);
        lemma_steps_rest_enc(p2);
        let t = key_of(p);
        match p[0] {
            StepV::Key(k) => {
                assert(key_ok(k));
                assert(t == k + e2);
                assert(t[0] == k[0]);
                assert(t[0] != '[');
                if t.len() >= 2 && t[0] == '-' && t[1] == '>' {
                    if k.len() >= 2 {
                        assert(t[1] == k[1]);
                        assert(false);
                    } else {
                        assert(t[1] == e2[0]);
                        assert(false);
                    }
                }
                lemma_key_end0_concat(k, e2);
                let e = key_end0(t);
                assert(e == k.len());
                assert(e > 0);
                assert(t.subrange(0, e) =~= k);
                assert(t.subrange(e, t.len() as int) =~= e2);
                assert(steps_of(t) == seq![StepV::Key(k)] + p2);
                assert(seq![StepV::Key(k)] + p2 =~= p);
            }
            StepV::Index(n) => {
                assert(t =~= enc_rest(p));
                lemma_steps_rest_enc(p);
                assert(t[0] == '[');
                assert(steps_of(t) == steps_rest(t));
            }
        }
    }
}

/// Path key injectivity: two distinct well-formed step sequences never
/// produce the same path key.
pub proof fn lemma_path_key_injective(p1: Seq<StepV>, p2: Seq<StepV>)
    requires
        wf_path(p1),
        wf_path(p2),
        p1 != p2,
    ensures
        key_of(p1) != key_of(p2),
{
    if key_of(p1) == key_of(p2) {
        lemma_steps_of_key_of(p1);
        lemma_steps_of_key_of(p2);
    }
}

/// Whether every array index of a path fits the machine's word.
pub open spec fn bounded_path(p: Seq<StepV>) -> bool {
    forall|i: int| 0 <= i < p.len() ==> ((#[trigger] p[i]) matches StepV::Index(n) ==> n
        <= usize::MAX as nat)
}

fn digit_char_of(d: usize) -> (c: char)
    requires
        d < 10,
    ensures
        c == digit_char(d as nat),
{
    if d == 0 { '0' }
    else if d == 1 { '1' }
    else if d == 2 { '2' }
    else if d == 3 { '3' }
    else if d == 4 { '4' }
    else if d == 5 { '5' }
    else if d == 6 { '6' }
    else if d == 7 { '7' }
    else if d == 8 { '8' }
    else { '9' }
}

pub(crate) fn push_digits(out: &mut Vec<char>, n: usize)
    ensures
        final(out)@ == old(out)@ + digits_of(n as nat),
    decreases n,
{
    if n < 10 {
        out.push(digit_char_of(n));
        proof {
            assert(out@ =~= old(out)@ + digits_of(n as nat));
        }
    } else {
        push_digits(out, n / 10);
        out.push(digit_char_of(n % 10));
        proof {
            assert(out@ =~= old(out)@ + digits_of(n as nat));
        }
    }
}

/// `pathFor`: the path key of a step sequence, deterministic and injective
/// over well-formed sequences.
pub fn path_for(steps: &Vec<Step>) -> (key: String)
    ensures
        key@ == key_of(steps_view(steps@)),
{
    let mut out: Vec<char> = Vec::new();
    let mut i: usize = 0;
    while i < steps.len()
        invariant
            i <= steps@.len(),
            out@ == key_of(steps_view(steps@.subrange(0, i as int))),
        decreases steps@.len() - i,
    {
        let ghost prefix = steps_view(steps@.subrange(0, i as int));
        proof {
            assert(prefix.len() == i);
            lemma_key_of_push(prefix, steps@[i as int]@);
            assert(steps_view(steps@.subrange(0, i + 1)) =~= prefix.push(steps@[i as int]@));
        }
        match &steps[i] {
            Step::Key(k) => {
                if i > 0 {
                    out.push('-');
                    out.push('>');
                }
                crate::text::append_chars(&mut out, k.as_str());
                proof {
                    if i == 0 {
                        assert(out@ =~= enc_first(StepV::Key(k@)));
                    } else {
                        assert(out@ =~= key_of(prefix) + enc_step(StepV::Key(k@)));
                    }
                }
            }
            Step::Index(n) => {
                out.push('[');
                push_digits(&mut out, *n);
                out.push(']');
                proof {
                    let s = StepV::Index(*n as nat);
                    assert(enc_step(s) =~= seq!['['] + digits_of(*n as nat) + seq![']']);
                    if i == 0 {
                        assert(out@ =~= enc_first(s));
                    } else {
                        assert(out@ =~= key_of(prefix) + enc_step(s));
                    }
                }
            }
        }
        i = i + 1;
    }
    proof {
        assert(steps@.subrange(0, steps@.len() as int) =~= steps@);
    }
    crate::text::string_from_chars(&out)
}

fn key_end_from(k: &Vec<char>, i: usize) -> (e: usize)
    requires
        i <= k@.len(),
    ensures
        i <= e <= k@.len(),
        e - i == key_end0(k@.subrange(i as int, k@.len() as int)),
    decreases k@.len() - i,
{
    let ghost s = k@.subrange(i as int, k@.len() as int);
    if i == k.len() {
        return i;
    }
    assert(s[0] == k@[i as int]);
    if k[i] == '[' {
        return i;
    }
    if i + 1 < k.len() && k[i] == '-' && k[i + 1] == '>' {
        assert(s.len() >= 2 && s[1] == k@[i + 1]);
        return i;
    }
    proof {
        assert(!(s.len() >= 2 && s[0] == '-' && s[1] == '>')) by {
            if s.len() >= 2 {
                assert(s[1] == k@[i + 1]);
            }
        }
    }
    let e = key_end_from(k, i + 1);
    proof {
        assert(k@.subrange(i + 1, k@.len() as int) =~= s.subrange(1, s.len() as int));
    }
    e
}

fn find_close_from(k: &Vec<char>, i: usize) -> (e: usize)
    requires
        i <= k@.len(),
    ensures
        i <= e <= k@.len(),
        e - i == find_close(k@.subrange(i as int, k@.len() as int)),
    decreases k@.len() - i,
{
    let ghost s = k@.subrange(i as int, k@.len() as int);
    if i == k.len() {
        return i;
    }
    assert(s[0] == k@[i as int]);
    if k[i] == ']' {
        return i;
    }
    let e = find_close_from(k, i + 1);
    proof {
        assert(k@.subrange(i + 1, k@.len() as int) =~= s.subrange(1, s.len() as int));
    }
    e
}

fn digit_val_of(c: char) -> (d: usize)
    ensures
        d == digit_val(c),
        d <= 9,
{
    if c == '0' { 0 }
    else if c == '1' { 1 }
    else if c == '2' { 2 }
    else if c == '3' { 3 }
    else if c == '4' { 4 }
    else if c == '5' { 5 }
    else if c == '6' { 6 }
    else if c == '7' { 7 }
    else if c == '8' { 8 }
    else { 9 }
}

/// Reads the numeric value of `k[from..to]`; the flag is false when the
/// value does not fit a `usize`.
fn parse_val(k: &Vec<char>, from: usize, to: usize) -> (r: (usize, bool))
    requires
        from <= to <= k@.len(),
    ensures
        r.1 ==> r.0 as nat == val_of(k@.subrange(from as int, to as int)),
        !r.1 ==> val_of(k@.subrange(from as int, to as int)) > usize::MAX as nat,
{
    let mut acc: usize = 0;
    let mut ok: bool = true;
    let mut j: usize = from;
    while j < to
        invariant
            from <= j <= to <= k@.len(),
            ok ==> acc as nat == val_of(k@.subrange(from as int, j as int)),
            !ok ==> val_of(k@.subrange(from as int, j as int)) > usize::MAX as nat,
        decreases to - j,
    {
        let ghost pre = k@.subrange(from as int, j as int);
        let ghost post = k@.subrange(from as int, j + 1);
        proof {
            assert(post.drop_last() =~= pre);
            assert(post.last() == k@[j as int]);
            assert(val_of(post) == val_of(pre) * 10 + digit_val(k@[j as int]));
        }
        let d = digit_val_of(k[j]);
        if ok {
            if acc <= (usize::MAX - d) / 10 {
                acc = acc * 10 + d;
            } else {
                ok = false;
                proof {
                    assert(val_of(pre) * 10 + digit_val(k@[j as int]) > usize::MAX as nat);
                }
            }
        } else {
            proof {
                assert(val_of(pre) * 10 >= val_of(pre) + val_of(pre));
                assert(val_of(post) > usize::MAX as nat);
            }
        }
        j = j + 1;
    }
    (acc, ok)
}

#[verifier::rlimit(60)]
fn parse_rest(k: &Vec<char>, i: usize, out: &mut Vec<Step>)
    requires
        i <= k@.len(),
    ensures
        bounded_path(steps_rest(k@.subrange(i as int, k@.len() as int))) ==> steps_view(
            final(out)@,
        ) == steps_view(old(out)@) + steps_rest(k@.subrange(i as int, k@.len() as int)),
    decreases k@.len() - i,
{
    let ghost s = k@.subrange(i as int, k@.len() as int);
    let ghost rsteps = steps_rest(s);
    if i == k.len() {
        proof {
            assert(steps_view(out@) =~= steps_view(old(out)@) + rsteps);
        }
        return;
    }
    assert(s[0] == k@[i as int]);
    if k[i] == '[' {
        let ghost body = s.subrange(1, s.len() as int);
        let j = find_close_from(k, i + 1);
        proof {
            assert(k@.subrange(i + 1, k@.len() as int) =~= body);
            lemma_find_close_bounds(body);
        }
        let ghost jr = (j - (i + 1)) as int;
        let (v, okv) = parse_val(k, i + 1, j);
        proof {
            assert(k@.subrange(i + 1, j as int) =~= body.subrange(0, jr));
        }
        let ghost step = StepV::Index(val_of(body.subrange(0, jr)));
        out.push(Step::Index(v));
        if j < k.len() {
            let ghost tail = body.subrange(jr + 1, body.len() as int);
            proof {
                assert(rsteps == seq![step] + steps_rest(tail));
            }
            let ghost out_mid = out@;
            parse_rest(k, j + 1, out);
            proof {
                assert(k@.subrange(j + 1, k@.len() as int) =~= tail);
                if bounded_path(rsteps) {
                    assert(rsteps[0] == step);
                    assert(val_of(body.subrange(0, jr)) <= usize::MAX as nat);
                    assert(okv);
                    assert(bounded_path(steps_rest(tail))) by {
                        assert(forall|x: int| 0 <= x < steps_rest(tail).len()
                            ==> steps_rest(tail)[x] == rsteps[x + 1]);
                    }
                    assert(steps_view(out_mid) =~= steps_view(old(out)@).push(step));
                    assert(steps_view(out@) =~= steps_view(old(out)@) + rsteps);
                }
            }
        } else {
            proof {
                assert(jr >= body.len());
                assert(rsteps == seq![step]);
                if bounded_path(rsteps) {
                    assert(rsteps[0] == step);
                    assert(okv);
                    assert(steps_view(out@) =~= steps_view(old(out)@) + rsteps);
                }
            }
        }
        return;
    }
    if i + 1 < k.len() && k[i] == '-' && k[i + 1] == '>' {
        let ghost body = s.subrange(2, s.len() as int);
        proof {
            assert(s.len() >= 2 && s[1] == k@[i + 1]);
            assert(k@.subrange(i + 2, k@.len() as int) =~= body);
        }
        let e = key_end_from(k, i + 2);
        let ghost er = (e - (i + 2)) as int;
        proof {
            lemma_key_end0_bounds(body);
        }
        let piece = crate::text::sub_string(k, i + 2, e);
        let ghost step = StepV::Key(body.subrange(0, er));
        proof {
            assert(piece@ =~= body.subrange(0, er));
            assert(rsteps == seq![step] + steps_rest(body.subrange(er, body.len() as int)));
        }
        out.push(Step::Key(piece));
        let ghost out_mid = out@;
        parse_rest(k, e, out);
        proof {
            assert(k@.subrange(e as int, k@.len() as int) =~= body.subrange(er, body.len() as int));
            let tsteps = steps_rest(body.subrange(er, body.len() as int));
            if bounded_path(rsteps) {
                assert(bounded_path(tsteps)) by {
                    assert(forall|x: int| 0 <= x < tsteps.len() ==> tsteps[x] == rsteps[x + 1]);
                }
                assert(steps_view(out_mid) =~= steps_view(old(out)@).push(step));
                assert(steps_view(out@) =~= steps_view(old(out)@) + rsteps);
            }
        }
        return;
    }
    proof {
        assert(!(s.len() >= 2 && s[0] == '-' && s[1] == '>')) by {
            if s.len() >= 2 {
                assert(s[1] == k@[i + 1]);
            }
        }
    }
    let e = key_end_from(k, i);
    let ghost er = (e - i) as int;
    proof {
        lemma_key_end0_bounds(s);
        assert(er > 0) by {
            assert(key_end0(s) == 1 + key_end0(s.subrange(1, s.len() as int)));
            lemma_key_end0_bounds(s.subrange(1, s.len() as int));
        }
    }
    let piece = crate::text::sub_string(k, i, e);
    let ghost step = StepV::Key(s.subrange(0, er));
    proof {
        assert(piece@ =~= s.subrange(0, er));
        assert(rsteps == seq![step] + steps_rest(s.subrange(er, s.len() as int)));
    }
    out.push(Step::Key(piece));
    let ghost out_mid = out@;
    parse_rest(k, e, out);
    proof {
        assert(k@.subrange(e as int, k@.len() as int) =~= s.subrange(er, s.len() as int));
        let tsteps = steps_rest(s.subrange(er, s.len() as int));
        if bounded_path(rsteps) {
            assert(bounded_path(tsteps)) by {
                assert(forall|x: int| 0 <= x < tsteps.len() ==> tsteps[x] == rsteps[x + 1]);
            }
            assert(steps_view(out_mid) =~= steps_view(old(out)@).push(step));
            assert(steps_view(out@) =~= steps_view(old(out)@) + rsteps);
        }
    }
}

/// `stepsFor`: reads a path key back into its ordered step sequence.
/// Exact whenever every index in the key fits the machine's word.
pub fn steps_for(key: &str) -> (r: Vec<Step>)
    ensures
        bounded_path(steps_of(key@)) ==> steps_view(r@) == steps_of(key@),
{
    let kc = crate::text::chars_vec(key);
    let mut out: Vec<Step> = Vec::new();
    if kc.len() == 0 {
        proof {
            assert(steps_view(out@) =~= steps_of(key@));
        }
        return out;
    }
    let ghost s = key@;
    proof {
        assert(kc@.subrange(0, kc@.len() as int) =~= s);
    }
    let first = kc[0];
    let pair = first == '-' && kc.len() >= 2 && kc[1] == '>';
    if first == '[' || pair {
        parse_rest(&kc, 0, &mut out);
        proof {
            assert(steps_of(s) == steps_rest(s));
        }
        return out;
    }
    let e = key_end_from(&kc, 0);
    let ghost er = e as int;
    proof {
        lemma_key_end0_bounds(s);
        assert(er > 0) by {
            assert(key_end0(s) == 1 + key_end0(s.subrange(1, s.len() as int)));
            lemma_key_end0_bounds(s.subrange(1, s.len() as int));
        }
    }
    let piece = crate::text::sub_string(&kc, 0, e);
    let ghost step = StepV::Key(s.subrange(0, er));
    proof {
        assert(piece@ =~= s.subrange(0, er));
        assert(steps_of(s) == seq![step] + steps_rest(s.subrange(er, s.len() as int)));
    }
    out.push(Step::Key(piece));
    let ghost out_mid = out@;
    parse_rest(&kc, e, &mut out);
    proof {
        assert(kc@.subrange(er, kc@.len() as int) =~= s.subrange(er, s.len() as int));
        let tsteps = steps_rest(s.subrange(er, s.len() as int));
        if bounded_path(steps_of(s)) {
            assert(bounded_path(tsteps)) by {
                assert(forall|x: int| 0 <= x < tsteps.len() ==> tsteps[x] == steps_of(s)[x + 1]);
            }
            assert(steps_view(out_mid) =~= Seq::<StepV>::empty().push(step));
            assert(steps_view(out@) =~= steps_of(s));
        }
    }
    out
}

} // verus!

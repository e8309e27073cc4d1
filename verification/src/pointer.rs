//! JSON Pointers (RFC 6901): the text form of a path.
use vstd::prelude::*;

use crate::text;
use crate::text::chars_of;
use crate::tree::Path;

verus! {

/// How one character of a key is written in a pointer.
pub open spec fn escape_char(c: char) -> Seq<char> {
    if c == '~' {
        seq!['~', '0']
    } else if c == '/' {
        seq!['~', '1']
    } else {
        seq![c]
    }
}

/// How a key is written in a pointer.
pub open spec fn escape(s: Seq<char>) -> Seq<char>
    decreases s.len(),
{
    if s.len() == 0 {
        Seq::empty()
    } else {
        escape_char(s[0]) + escape(s.drop_first())
    }
}

/// The key that an escaped segment stands for.
pub open spec fn unescape(s: Seq<char>) -> Option<Seq<char>>
    decreases s.len(),
{
    if s.len() == 0 {
        Some(Seq::empty())
    } else if s[0] != '~' {
        match unescape(s.drop_first()) {
            Some(t) => Some(seq![s[0]] + t),
            None => None,
        }
    } else if s.len() >= 2 && (s[1] == '0' || s[1] == '1') {
        match unescape(s.skip(2)) {
            Some(t) => Some(seq![if s[1] == '0' { '~' } else { '/' }] + t),
            None => None,
        }
    } else {
        None
    }
}

/// The keys of a run of segments between slashes.
pub open spec fn segments(s: Seq<char>) -> Option<Path>
    decreases s.len(),
{
    proof {
        text::lemma_cut(s, '/');
    }
    match unescape(s.take(text::cut(s, '/'))) {
        None => None,
        Some(head) => if text::cut(s, '/') == s.len() {
            Some(seq![head])
        } else {
            match segments(s.skip(text::cut(s, '/') + 1)) {
                Some(rest) => Some(seq![head] + rest),
                None => None,
            }
        },
    }
}

/// The path that a pointer stands for. The empty pointer is not accepted.
pub open spec fn pointer_path(s: Seq<char>) -> Option<Path> {
    if s.len() == 0 || s[0] != '/' {
        None
    } else {
        segments(s.drop_first())
    }
}

/// The canonical pointer of a path.
pub open spec fn pointer_text(p: Path) -> Seq<char>
    decreases p.len(),
{
    if p.len() == 0 {
        Seq::empty()
    } else {
        seq!['/'] + escape(p[0]) + pointer_text(p.drop_first())
    }
}

/// The texts of a list of strings.
pub open spec fn texts(v: Seq<String>) -> Path {
    Seq::new(v.len(), |i: int| v[i]@)
}

proof fn lemma_escape_clean(s: Seq<char>)
    ensures
        forall|i: int| 0 <= i < escape(s).len() ==> escape(s)[i] != '/',
        unescape(escape(s)) == Some(s),
    decreases s.len(),
{
    if s.len() > 0 {
        let t = s.drop_first();
        lemma_escape_clean(t);
        let e = escape(s);
        assert(s =~= seq![s[0]] + t);
        if s[0] == '~' || s[0] == '/' {
            assert(e.skip(2) =~= escape(t));
        } else {
            assert(e.drop_first() =~= escape(t));
        }
    } else {
        assert(s =~= Seq::empty());
    }
}

/// Reading the canonical pointer of a path gives the path back.
pub proof fn law_pointer_round_trip(p: Path)
    requires
        p.len() > 0,
    ensures
        pointer_path(pointer_text(p)) == Some(p),
    decreases p.len(),
{
    let s = pointer_text(p);
    let e = escape(p[0]);
    let rest = pointer_text(p.drop_first());
    let body = s.drop_first();
    assert(body =~= e + rest);
    lemma_escape_clean(p[0]);
    if p.len() > 1 {
        law_pointer_round_trip(p.drop_first());
        assert(rest[0] == '/');
    }
    text::lemma_cut_at(body, '/', e.len() as int);
    assert(body.take(e.len() as int) =~= e);
    if p.len() == 1 {
        assert(p.drop_first() =~= Seq::empty());
        assert(rest =~= Seq::empty());
        assert(p =~= seq![p[0]]);
    } else {
        assert(body.skip(e.len() as int + 1) =~= rest.drop_first());
        assert(p =~= seq![p[0]] + p.drop_first());
    }
}

/// Different paths have different canonical pointers.
pub proof fn law_pointer_injective(p: Path, q: Path)
    requires
        pointer_text(p) == pointer_text(q),
    ensures
        p == q,
{
    if p.len() == 0 || q.len() == 0 {
        if p.len() > 0 {
            assert(pointer_text(p)[0] == '/');
        }
        if q.len() > 0 {
            assert(pointer_text(q)[0] == '/');
        }
        assert(p =~= q);
    } else {
        law_pointer_round_trip(p);
        law_pointer_round_trip(q);
    }
}

proof fn lemma_escape_unescape(s: Seq<char>)
    requires
        unescape(s) is Some,
        forall|i: int| 0 <= i < s.len() ==> s[i] != '/',
    ensures
        escape(unescape(s)->0) == s,
    decreases s.len(),
{
    if s.len() == 0 {
        assert(s =~= Seq::empty());
    } else if s[0] != '~' {
        let rest = s.drop_first();
        assert forall|i: int| 0 <= i < rest.len() implies rest[i] != '/' by {
            assert(rest[i] == s[i + 1]);
        }
        lemma_escape_unescape(rest);
        let t = unescape(rest)->0;
        assert((seq![s[0]] + t).drop_first() =~= t);
        assert(escape(unescape(s)->0) =~= s);
    } else {
        let rest = s.skip(2);
        assert forall|i: int| 0 <= i < rest.len() implies rest[i] != '/' by {
            assert(rest[i] == s[i + 2]);
        }
        lemma_escape_unescape(rest);
        let t = unescape(rest)->0;
        let c = if s[1] == '0' { '~' } else { '/' };
        assert((seq![c] + t).drop_first() =~= t);
        assert(escape(unescape(s)->0) =~= s);
    }
}

proof fn lemma_segments_text(s: Seq<char>)
    requires
        segments(s) is Some,
    ensures
        pointer_text(segments(s)->0) == seq!['/'] + s,
    decreases s.len(),
{
    text::lemma_cut(s, '/');
    let n = text::cut(s, '/');
    let raw = s.take(n);
    assert forall|i: int| 0 <= i < raw.len() implies raw[i] != '/' by {
        assert(raw[i] == s[i]);
    }
    lemma_escape_unescape(raw);
    let head = unescape(raw)->0;
    let p = segments(s)->0;
    if n == s.len() {
        assert(raw =~= s);
        assert(p.drop_first() =~= Seq::empty());
        assert(pointer_text(p.drop_first()) =~= Seq::empty());
        assert(pointer_text(p) =~= seq!['/'] + s);
    } else {
        let more = s.skip(n + 1);
        lemma_segments_text(more);
        assert(p.drop_first() =~= segments(more)->0);
        assert(s =~= raw + seq!['/'] + more);
        assert(pointer_text(p) =~= seq!['/'] + s);
    }
}

/// A pointer that can be read is the canonical pointer of its path: there is no
/// other spelling.
pub proof fn law_pointer_is_canonical(s: Seq<char>)
    requires
        pointer_path(s) is Some,
    ensures
        pointer_text(pointer_path(s)->0) == s,
{
    lemma_segments_text(s.drop_first());
    assert(seq!['/'] + s.drop_first() =~= s);
}

/// Every path that is read has at least one key.
pub proof fn lemma_segments_nonempty(s: Seq<char>)
    requires
        segments(s) is Some,
    ensures
        segments(s)->0.len() > 0,
{
    text::lemma_cut(s, '/');
}

/// Writes a key as a pointer segment.
pub fn escape_segment(segment: &str) -> (r: String)
    ensures
        r@ == escape(segment@),
{
    let chars = chars_of(segment);
    let mut out = String::new();
    assert(segment@.skip(0) =~= segment@);
    assert(Seq::<char>::empty() + escape(segment@) =~= escape(segment@));
    for i in 0..chars.len()
        invariant
            chars@ == segment@,
            escape(segment@) == out@ + escape(segment@.skip(i as int)),
    {
        let c = chars[i];
        let ghost before = out@;
        proof {
            assert(segment@.skip(i as int)[0] == c);
            assert(segment@.skip(i as int).drop_first() =~= segment@.skip(i + 1));
        }
        if c == '~' {
            out.push('~');
            out.push('0');
        } else if c == '/' {
            out.push('~');
            out.push('1');
        } else {
            out.push(c);
        }
        assert(out@ =~= before + escape_char(c));
        assert(before + (escape_char(c) + escape(segment@.skip(i + 1))) =~= out@ + escape(
            segment@.skip(i + 1),
        ));
    }
    assert(segment@.skip(chars@.len() as int) =~= Seq::empty());
    assert(out@ + Seq::<char>::empty() =~= out@);
    out
}

/// Puts what was already read in front of what is read from the rest.
spec fn after<A>(done: Seq<A>, rest: Option<Seq<A>>) -> Option<Seq<A>> {
    match rest {
        Some(t) => Some(done + t),
        None => None,
    }
}

/// Reads one escaped segment.
fn unescape_segment(raw: &[char]) -> (r: Option<String>)
    ensures
        match r {
            Some(s) => unescape(raw@) == Some(s@),
            None => unescape(raw@) is None,
        },
{
    let mut out = String::new();
    let mut i: usize = 0;
    proof {
        assert(raw@.skip(0) =~= raw@);
        if unescape(raw@) is Some {
            assert(Seq::<char>::empty() + unescape(raw@)->0 =~= unescape(raw@)->0);
        }
    }
    while i < raw.len()
        invariant
            i <= raw@.len(),
            unescape(raw@) == after(out@, unescape(raw@.skip(i as int))),
        decreases raw@.len() - i,
    {
        let c = raw[i];
        let ghost before = out@;
        let ghost here = raw@.skip(i as int);
        assert(here[0] == c);
        if c == '~' {
            if i + 1 >= raw.len() {
                return None;
            }
            assert(here[1] == raw@[i + 1]);
            let d = raw[i + 1];
            if d == '0' {
                out.push('~');
            } else if d == '1' {
                out.push('/');
            } else {
                return None;
            }
            i = i + 2;
            assert(here.skip(2) =~= raw@.skip(i as int));
        } else {
            out.push(c);
            i = i + 1;
            assert(here.drop_first() =~= raw@.skip(i as int));
        }
        proof {
            let tail = unescape(raw@.skip(i as int));
            if tail is Some {
                assert(before + (seq![out@.last()] + tail->0) =~= out@ + tail->0);
            }
        }
    }
    assert(raw@.skip(i as int) =~= Seq::empty());
    assert(out@ + Seq::<char>::empty() =~= out@);
    Some(out)
}

/// Reads a JSON Pointer into its keys; `None` for the empty pointer and for
/// texts that are no pointers.
pub fn parse_pointer(path: &str) -> (r: Option<Vec<String>>)
    ensures
        match r {
            Some(v) => pointer_path(path@) == Some(texts(v@)) && v@.len() > 0,
            None => pointer_path(path@) is None,
        },
{
    let chars = chars_of(path);
    if chars.len() == 0 || chars[0] != '/' {
        return None;
    }
    let mut out: Vec<String> = Vec::new();
    let mut start: usize = 1;
    let ghost whole = path@.drop_first();
    proof {
        assert(path@.skip(1) =~= whole);
        if segments(whole) is Some {
            assert(texts(out@) + segments(whole)->0 =~= segments(whole)->0);
        }
    }
    loop
        invariant
            chars@ == path@,
            1 <= start <= path@.len(),
            path@.len() > 0,
            path@[0] == '/',
            whole == path@.drop_first(),
            segments(whole) == after(texts(out@), segments(path@.skip(start as int))),
        decreases path@.len() - start,
    {
        let ghost here = path@.skip(start as int);
        let mut end: usize = start;
        while end < chars.len() && chars[end] != '/'
            invariant
                chars@ == path@,
                start <= end <= path@.len(),
                forall|i: int| start <= i < end ==> path@[i] != '/',
            decreases path@.len() - end,
        {
            end = end + 1;
        }
        proof {
            text::lemma_cut_at(here, '/', end - start);
        }
        let raw = vstd::slice::slice_subrange(chars.as_slice(), start, end);
        assert(raw@ =~= here.take(end - start));
        let ghost before = texts(out@);
        match unescape_segment(raw) {
            None => {
                return None;
            },
            Some(segment) => {
                let ghost key = segment@;
                out.push(segment);
                assert(texts(out@) =~= before.push(key));
                if end == chars.len() {
                    assert(before + seq![key] =~= before.push(key));
                    return Some(out);
                }
                start = end + 1;
                proof {
                    let tail = segments(path@.skip(start as int));
                    assert(here.skip(text::cut(here, '/') + 1) =~= path@.skip(start as int));
                    if tail is Some {
                        assert(before + (seq![key] + tail->0) =~= texts(out@) + tail->0);
                    }
                }
            },
        }
    }
}

/// Writes keys as a JSON Pointer in canonical form.
pub fn canonical_pointer(keys: &[String]) -> (r: String)
    ensures
        r@ == pointer_text(texts(keys@)),
{
    let mut out = String::new();
    let ghost p = texts(keys@);
    assert(p.skip(0) =~= p);
    assert(Seq::<char>::empty() + pointer_text(p) =~= pointer_text(p));
    for i in 0..keys.len()
        invariant
            p == texts(keys@),
            pointer_text(p) == out@ + pointer_text(p.skip(i as int)),
    {
        let ghost before = out@;
        proof {
            assert(p.skip(i as int)[0] == keys@[i as int]@);
            assert(p.skip(i as int).drop_first() =~= p.skip(i + 1));
        }
        out.push('/');
        out.append(escape_segment(keys[i].as_str()).as_str());
        assert(before + (seq!['/'] + escape(keys@[i as int]@) + pointer_text(p.skip(i + 1))) =~= out@
            + pointer_text(p.skip(i + 1)));
    }
    assert(p.skip(keys@.len() as int) =~= Seq::empty());
    assert(out@ + Seq::<char>::empty() =~= out@);
    out
}

/// Escaping goes character by character: a tilde and a slash are spelled out,
/// every other character stands for itself.
pub proof fn law_escape(a: Seq<char>, b: Seq<char>, c: char)
    ensures
        escape(Seq::empty()) == Seq::<char>::empty(),
        escape(a + b) == escape(a) + escape(b),
        escape(seq![c]) == (if c == '~' {
            seq!['~', '0']
        } else if c == '/' {
            seq!['~', '1']
        } else {
            seq![c]
        }),
    decreases a.len(),
{
    let one = seq![c];
    assert(one.drop_first() =~= Seq::empty());
    reveal_with_fuel(escape, 2);
    assert(escape(one) =~= escape_char(c));
    if a.len() == 0 {
        assert(a + b =~= b);
        assert(escape(a) + escape(b) =~= escape(b));
    } else {
        law_escape(a.drop_first(), b, c);
        assert((a + b).drop_first() =~= a.drop_first() + b);
        assert(escape(a + b) =~= escape(a) + escape(b));
    }
}

/// A pointer is a slash and an escaped key for each key of a path.
pub proof fn law_pointer_text(p: Path, q: Path, k: Seq<char>)
    ensures
        pointer_text(Seq::empty()) == Seq::<char>::empty(),
        pointer_text(seq![k]) == seq!['/'] + escape(k),
        pointer_text(p + q) == pointer_text(p) + pointer_text(q),
    decreases p.len(),
{
    let one = seq![k];
    assert(one.drop_first() =~= Seq::empty());
    reveal_with_fuel(pointer_text, 2);
    assert(pointer_text(one) =~= seq!['/'] + escape(k));
    if p.len() == 0 {
        assert(p + q =~= q);
        assert(pointer_text(p) + pointer_text(q) =~= pointer_text(q));
    } else {
        law_pointer_text(p.drop_first(), q, k);
        assert((p + q).drop_first() =~= p.drop_first() + q);
        assert(pointer_text(p + q) =~= pointer_text(p) + pointer_text(q));
    }
}

/// A text is read as a path exactly if it is the pointer of that path, and the
/// path is not empty.
pub proof fn law_pointers_are_read(s: Seq<char>, p: Path)
    ensures
        pointer_path(s) == Some(p) <==> p.len() > 0 && pointer_text(p) == s,
{
    if p.len() > 0 {
        law_pointer_round_trip(p);
    }
    if pointer_path(s) is Some {
        law_pointer_is_canonical(s);
        if pointer_path(s)->0.len() == 0 {
            assert(pointer_text(pointer_path(s)->0) =~= Seq::empty());
        }
    }
}

/// Texts keep their number and their order.
pub proof fn law_texts(v: Seq<String>, i: int)
    ensures
        texts(v).len() == v.len(),
        0 <= i < v.len() ==> texts(v)[i] == v[i]@,
{
}

} // verus!

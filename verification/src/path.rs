//! Dot paths: `.` separates segments, `\.` stands for a dot inside a key and `\\` for a
//! backslash.
use vstd::prelude::*;
use crate::text::{chars_of, string_of, push_str, owned};
use crate::error::{ConfigError, ConfigResult, ErrorModel};

verus! {

/// The segments of `p` read left to right: `.` separates segments, `\.` and `\\` stand for
/// `.` and `\`; `None` when a backslash starts any other escape or ends the text.
pub open spec fn split_path(p: Seq<char>) -> Option<Seq<Seq<char>>>
    decreases p.len(),
{
    if p.len() == 0 {
        Some(seq![Seq::<char>::empty()])
    } else if p[0] == '\\' {
        if p.len() >= 2 && (p[1] == '.' || p[1] == '\\') {
            match split_path(p.skip(2)) {
                Some(r) => Some(r.update(0, seq![p[1]] + r[0])),
                None => None,
            }
        } else {
            None
        }
    } else if p[0] == '.' {
        match split_path(p.drop_first()) {
            Some(r) => Some(seq![Seq::<char>::empty()] + r),
            None => None,
        }
    } else {
        match split_path(p.drop_first()) {
            Some(r) => Some(r.update(0, seq![p[0]] + r[0])),
            None => None,
        }
    }
}

pub proof fn lemma_split_path_nonempty(p: Seq<char>)
    ensures
        split_path(p) matches Some(r) ==> r.len() >= 1,
    decreases p.len(),
{
    if p.len() > 0 {
        if p[0] == '\\' {
            if p.len() >= 2 {
                lemma_split_path_nonempty(p.skip(2));
            }
        } else {
            lemma_split_path_nonempty(p.drop_first());
        }
    }
}

/// Whether every segment holds at least one character.
pub open spec fn segments_nonempty(s: Seq<Seq<char>>) -> bool {
    forall|i: int| 0 <= i < s.len() ==> #[trigger] s[i].len() > 0
}

/// The outcome of reading a dot path.
pub open spec fn parse_path_spec(p: Seq<char>) -> Result<Seq<Seq<char>>, ErrorModel> {
    if p.len() == 0 {
        Err(ErrorModel::EmptyPath)
    } else {
        match split_path(p) {
            None => Err(ErrorModel::ParseError { format: "path"@, detail: "invalid escape in `"@ + p + "`"@ }),
            Some(segs) => if segments_nonempty(segs) {
                Ok(segs)
            } else {
                Err(ErrorModel::ParseError { format: "path"@, detail: "empty segment in `"@ + p + "`"@ })
            },
        }
    }
}

/// The escaped form of one character inside a segment.
pub open spec fn escape_char(c: char) -> Seq<char> {
    if c == '.' || c == '\\' {
        seq!['\\', c]
    } else {
        seq![c]
    }
}

/// The escaped form of a segment.
pub open spec fn escape(s: Seq<char>) -> Seq<char>
    decreases s.len(),
{
    if s.len() == 0 {
        Seq::empty()
    } else {
        escape_char(s[0]) + escape(s.drop_first())
    }
}

/// The path that addresses the given segments.
pub open spec fn join_segments(segs: Seq<Seq<char>>) -> Seq<char>
    decreases segs.len(),
{
    if segs.len() == 0 {
        Seq::empty()
    } else if segs.len() == 1 {
        escape(segs[0])
    } else {
        escape(segs[0]) + seq!['.'] + join_segments(segs.drop_first())
    }
}

/// The views of a sequence of strings.
pub open spec fn views(v: Seq<String>) -> Seq<Seq<char>> {
    Seq::new(v.len(), |i: int| v[i]@)
}

proof fn lemma_escape_append(a: Seq<char>, c: char)
    ensures
        escape(a.push(c)) == escape(a) + escape_char(c),
    decreases a.len(),
{
    if a.len() == 0 {
        assert(a.push(c).drop_first() =~= Seq::<char>::empty());
        assert(escape(Seq::<char>::empty()) == Seq::<char>::empty());
        assert(escape(a) == Seq::<char>::empty());
        assert(escape(a.push(c)) == escape_char(c) + escape(a.push(c).drop_first()));
        assert(escape_char(c) + Seq::<char>::empty() =~= escape_char(c));
    } else {
        lemma_escape_append(a.drop_first(), c);
        assert(a.push(c).drop_first() =~= a.drop_first().push(c));
        assert(a.push(c)[0] == a[0]);
    }
}

proof fn lemma_escape_concat(a: Seq<char>, b: Seq<char>)
    ensures
        escape(a + b) == escape(a) + escape(b),
    decreases a.len(),
{
    if a.len() == 0 {
        assert(a + b =~= b);
    } else {
        lemma_escape_concat(a.drop_first(), b);
        assert((a + b).drop_first() =~= a.drop_first() + b);
        assert((a + b)[0] == a[0]);
    }
}

/// Reading an escaped segment followed by `rest` prepends the segment to the first segment of
/// `rest`.
proof fn lemma_split_escape(s: Seq<char>, rest: Seq<char>)
    ensures
        split_path(escape(s) + rest) == (match split_path(rest) {
            Some(r) => Some(r.update(0, s + r[0])),
            None => None,
        }),
    decreases s.len(),
{
    lemma_split_path_nonempty(rest);
    if s.len() == 0 {
        assert(escape(s) + rest =~= rest);
        if let Some(r) = split_path(rest) {
            assert(r.update(0, s + r[0]) =~= r);
        }
    } else {
        let c = s[0];
        let t = s.drop_first();
        lemma_split_escape(t, rest);
        lemma_split_path_nonempty(escape(t) + rest);
        let p = escape(s) + rest;
        if c == '.' || c == '\\' {
            assert(p =~= seq!['\\', c] + (escape(t) + rest));
            assert(p.skip(2) =~= escape(t) + rest);
            if let Some(r) = split_path(rest) {
                let r1 = r.update(0, t + r[0]);
                assert(r1.update(0, seq![c] + r1[0]) =~= r.update(0, s + r[0])) by {
                    assert(seq![c] + (t + r[0]) =~= s + r[0]);
                }
            }
        } else {
            assert(p =~= seq![c] + (escape(t) + rest));
            assert(p.drop_first() =~= escape(t) + rest);
            if let Some(r) = split_path(rest) {
                let r1 = r.update(0, t + r[0]);
                assert(r1.update(0, seq![c] + r1[0]) =~= r.update(0, s + r[0])) by {
                    assert(seq![c] + (t + r[0]) =~= s + r[0]);
                }
            }
        }
    }
}

/// Reading the path of some segments gives those segments back.
pub proof fn lemma_split_join(segs: Seq<Seq<char>>)
    requires
        segs.len() >= 1,
    ensures
        split_path(join_segments(segs)) == Some(segs),
    decreases segs.len(),
{
    if segs.len() == 1 {
        lemma_split_escape(segs[0], Seq::empty());
        assert(escape(segs[0]) + Seq::<char>::empty() =~= escape(segs[0]));
        let r = seq![Seq::<char>::empty()];
        assert(r.update(0, segs[0] + r[0]) =~= segs);
    } else {
        let rest = segs.drop_first();
        lemma_split_join(rest);
        let tail = seq!['.'] + join_segments(rest);
        lemma_split_escape(segs[0], tail);
        assert(escape(segs[0]) + seq!['.'] + join_segments(rest) =~= escape(segs[0]) + tail);
        assert(tail.drop_first() =~= join_segments(rest));
        let r = seq![Seq::<char>::empty()] + rest;
        assert(r.update(0, segs[0] + r[0]) =~= segs);
    }
}

proof fn lemma_join_prefix(r: Seq<Seq<char>>, x: Seq<char>)
    requires
        r.len() >= 1,
    ensures
        join_segments(r.update(0, x + r[0])) == escape(x) + join_segments(r),
{
    let r2 = r.update(0, x + r[0]);
    lemma_escape_concat(x, r[0]);
    if r.len() > 1 {
        assert(r2.drop_first() =~= r.drop_first());
    }
}

/// Segments that a path reads into address that same path.
pub proof fn lemma_join_split(p: Seq<char>)
    ensures
        split_path(p) matches Some(segs) ==> join_segments(segs) == p,
    decreases p.len(),
{
    lemma_split_path_nonempty(p);
    if p.len() == 0 {
        assert(escape(Seq::<char>::empty()) =~= Seq::<char>::empty());
    } else if p[0] == '\\' {
        if p.len() >= 2 && (p[1] == '.' || p[1] == '\\') {
            lemma_join_split(p.skip(2));
            lemma_split_path_nonempty(p.skip(2));
            if let Some(r) = split_path(p.skip(2)) {
                lemma_join_prefix(r, seq![p[1]]);
                assert(escape(seq![p[1]]) =~= seq!['\\', p[1]]) by {
                    assert(seq![p[1]].drop_first() =~= Seq::<char>::empty());
                    assert(escape(Seq::<char>::empty()) == Seq::<char>::empty());
                    assert(escape_char(p[1]) + Seq::<char>::empty() =~= escape_char(p[1]));
                }
                assert(seq!['\\', p[1]] + p.skip(2) =~= p);
            }
        }
    } else if p[0] == '.' {
        lemma_join_split(p.drop_first());
        lemma_split_path_nonempty(p.drop_first());
        if let Some(r) = split_path(p.drop_first()) {
            let segs = seq![Seq::<char>::empty()] + r;
            assert(segs.drop_first() =~= r);
            assert(escape(Seq::<char>::empty()) =~= Seq::<char>::empty());
            assert(seq!['.'] + p.drop_first() =~= p);
            assert(Seq::<char>::empty() + seq!['.'] + join_segments(r) =~= seq!['.'] + join_segments(r));
        }
    } else {
        lemma_join_split(p.drop_first());
        lemma_split_path_nonempty(p.drop_first());
        if let Some(r) = split_path(p.drop_first()) {
            lemma_join_prefix(r, seq![p[0]]);
            assert(escape(seq![p[0]]) =~= seq![p[0]]) by {
                assert(seq![p[0]].drop_first() =~= Seq::<char>::empty());
                assert(escape(Seq::<char>::empty()) == Seq::<char>::empty());
                assert(escape_char(p[0]) + Seq::<char>::empty() =~= escape_char(p[0]));
            }
            assert(seq![p[0]] + p.drop_first() =~= p);
        }
    }
}

/// Appends the escaped form of a segment to `out`.
pub fn push_escaped(out: &mut String, seg: &str)
    ensures
        final(out)@ == old(out)@ + escape(seg@),
{
    let v = chars_of(seg);
    let ghost start = out@;
    let mut i: usize = 0;
    assert(v@.take(0) =~= Seq::<char>::empty());
    assert(start + escape(Seq::<char>::empty()) =~= start);
    while i < v.len()
        invariant
            i <= v.len(),
            v@ == seg@,
            out@ == start + escape(v@.take(i as int)),
        decreases v.len() - i,
    {
        let c = v[i];
        if c == '.' || c == '\\' {
            out.push('\\');
        }
        out.push(c);
        proof {
            assert(v@.take(i + 1) =~= v@.take(i as int).push(c));
            lemma_escape_append(v@.take(i as int), c);
        }
        i = i + 1;
    }
    assert(v@.take(v.len() as int) =~= v@);
}

/// The path that addresses the given segments.
pub fn join_path(segments: &[String]) -> (r: String)
    ensures
        r@ == join_segments(views(segments@)),
    decreases segments.len(),
{
    let mut out = String::new();
    if segments.len() == 0 {
        assert(views(segments@) =~= Seq::<Seq<char>>::empty());
        return out;
    }
    let n = segments.len();
    let mut i: usize = n - 1;
    push_escaped(&mut out, segments[i].as_str());
    assert(views(segments@.skip(i as int)) =~= seq![segments@[i as int]@]);
    while i > 0
        invariant
            i < n,
            n == segments.len(),
            out@ == join_segments(views(segments@.skip(i as int))),
        decreases i,
    {
        i = i - 1;
        let mut front = String::new();
        push_escaped(&mut front, segments[i].as_str());
        front.push('.');
        push_str(&mut front, out.as_str());
        proof {
            let tail = views(segments@.skip(i + 1));
            let all = views(segments@.skip(i as int));
            assert(all.drop_first() =~= tail);
            assert(all[0] == segments@[i as int]@);
            assert(Seq::<char>::empty() + escape(segments@[i as int]@) + seq!['.'] + join_segments(tail)
                =~= escape(segments@[i as int]@) + seq!['.'] + join_segments(tail));
        }
        out = front;
    }
    assert(segments@.skip(0) =~= segments@);
    out
}

/// The outcome of reading the characters of `p` from index `i` on, given the segments
/// `acc` already complete and the segment `cur` begun.
pub open spec fn split_from(acc: Seq<Seq<char>>, cur: Seq<char>, rest: Option<Seq<Seq<char>>>) -> Option<Seq<Seq<char>>> {
    match rest {
        Some(r) => Some(acc + r.update(0, cur + r[0])),
        None => None,
    }
}

/// Reads a dot path into its segments.
pub fn parse_path(path: &str) -> (r: ConfigResult<Vec<String>>)
    ensures
        match parse_path_spec(path@) {
            Ok(segs) => r is Ok && views(r->Ok_0@) == segs,
            Err(e) => r is Err && r->Err_0.model() == e,
        },
{
    let p = chars_of(path);
    if p.len() == 0 {
        return Err(ConfigError::EmptyPath);
    }
    let mut acc: Vec<String> = Vec::new();
    let mut cur: Vec<char> = Vec::new();
    let mut i: usize = 0;
    proof {
        lemma_split_path_nonempty(p@);
        if let Some(r) = split_path(p@) {
            assert(r.update(0, Seq::<char>::empty() + r[0]) =~= r);
            assert(Seq::<Seq<char>>::empty() + r =~= r);
        }
        assert(p@.skip(0) =~= p@);
    }
    while i < p.len()
        invariant
            i <= p.len(),
            p@ == path@,
            split_path(p@) == split_from(views(acc@), cur@, split_path(p@.skip(i as int))),
        decreases p.len() - i,
    {
        let c = p[i];
        let ghost s = p@.skip(i as int);
        proof {
            lemma_split_path_nonempty(s);
            lemma_split_path_nonempty(s.drop_first());
        }
        if c == '\\' {
            if i + 1 < p.len() && (p[i + 1] == '.' || p[i + 1] == '\\') {
                let e = p[i + 1];
                proof {
                    assert(s.skip(2) =~= p@.skip(i + 2));
                    lemma_split_path_nonempty(s.skip(2));
                    if let Some(r) = split_path(s.skip(2)) {
                        assert(cur@ + (seq![e] + r[0]) =~= cur@.push(e) + r[0]);
                        assert(r.update(0, seq![e] + r[0]).update(0, cur@ + (r.update(0, seq![e] + r[0]))[0])
                            =~= r.update(0, cur@.push(e) + r[0]));
                    }
                }
                cur.push(e);
                i = i + 2;
            } else {
                proof {
                    assert(split_path(s) is None);
                }
                return Err(ConfigError::ParseError {
                    format: owned("path"),
                    detail: escape_message("invalid escape in `", path),
                });
            }
        } else if c == '.' {
            let seg = string_of(cur.as_slice());
            proof {
                assert(s.drop_first() =~= p@.skip(i + 1));
                if let Some(r) = split_path(s.drop_first()) {
                    let r2 = seq![Seq::<char>::empty()] + r;
                    assert(views(acc@.push(seg)) =~= views(acc@).push(cur@));
                    assert(views(acc@) + r2.update(0, cur@ + r2[0]) =~= views(acc@).push(cur@) + r.update(0, Seq::<char>::empty() + r[0]));
                }
            }
            acc.push(seg);
            cur = Vec::new();
            i = i + 1;
        } else {
            proof {
                assert(s.drop_first() =~= p@.skip(i + 1));
                if let Some(r) = split_path(s.drop_first()) {
                    assert(cur@ + (seq![c] + r[0]) =~= cur@.push(c) + r[0]);
                    assert(r.update(0, seq![c] + r[0]).update(0, cur@ + (r.update(0, seq![c] + r[0]))[0])
                        =~= r.update(0, cur@.push(c) + r[0]));
                }
            }
            cur.push(c);
            i = i + 1;
        }
    }
    let seg = string_of(cur.as_slice());
    acc.push(seg);
    proof {
        assert(p@.skip(i as int) =~= Seq::<char>::empty());
        let r = seq![Seq::<char>::empty()];
        assert(cur@ + r[0] =~= cur@);
        assert(views(acc@) =~= split_path(p@).unwrap());
    }
    let mut k: usize = 0;
    while k < acc.len()
        invariant
            k <= acc.len(),
            split_path(path@) is Some,
            views(acc@) == split_path(path@).unwrap(),
            path@.len() > 0,
            forall|j: int| 0 <= j < k ==> #[trigger] acc@[j]@.len() > 0,
        decreases acc.len() - k,
    {
        if acc[k].as_str().is_empty() {
            proof {
                assert(views(acc@)[k as int].len() == 0);
                assert(!segments_nonempty(views(acc@)));
            }
            return Err(ConfigError::ParseError {
                format: owned("path"),
                detail: escape_message("empty segment in `", path),
            });
        }
        k = k + 1;
    }
    assert(segments_nonempty(views(acc@)));
    Ok(acc)
}

fn escape_message(head: &str, path: &str) -> (r: String)
    ensures
        r@ == head@ + path@ + "`"@,
{
    let mut s = String::new();
    push_str(&mut s, head);
    push_str(&mut s, path);
    push_str(&mut s, "`");
    assert(Seq::<char>::empty() + head@ =~= head@);
    s
}

} // verus!

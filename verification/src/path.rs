use crate::chars::{
    all_digits, decimal_text, digit_char, digit_value, digits_value, is_digit, parse_usize, spec_parse_usize, string_push,
    u64_to_decimal,
};
use crate::error::{SxError, SxErrorCode, SxResult};
use vstd::prelude::*;

verus! {

/// Path segment in an SX path.
#[derive(Debug, Clone, PartialEq, Eq, PartialOrd, Ord, Hash)]
pub enum SxPathSegment {
    Key(String),
    Index(usize),
}

/// Canonical path for SX values: a sequence of object keys and array indexes.
#[derive(Debug, Clone, PartialEq, Eq, PartialOrd, Ord, Hash, Default)]
pub struct SxPath {
    pub segments: Vec<SxPathSegment>,
}

/// Mathematical view of a path segment.
pub enum Seg {
    Key(Seq<char>),
    Index(usize),
}

impl SxPathSegment {
    pub open spec fn view_seg(&self) -> Seg {
        match self {
            SxPathSegment::Key(k) => Seg::Key(k@),
            SxPathSegment::Index(i) => Seg::Index(*i),
        }
    }

    /// Copies a segment, keeping its view.
    pub fn copy_seg(&self) -> (r: SxPathSegment)
        ensures
            r.view_seg() == self.view_seg(),
    {
        match self {
            SxPathSegment::Key(k) => SxPathSegment::Key(k.clone()),
            SxPathSegment::Index(i) => SxPathSegment::Index(*i),
        }
    }
}

impl View for SxPath {
    type V = Seq<Seg>;

    open spec fn view(&self) -> Seq<Seg> {
        self.segments@.map_values(|s: SxPathSegment| s.view_seg())
    }
}

/// `input` split at every `/`, like `str::split('/')`.
pub open spec fn split_slash(s: Seq<char>) -> Seq<Seq<char>>
    decreases s.len(),
{
    if s.len() == 0 {
        seq![Seq::<char>::empty()]
    } else {
        let parts = split_slash(s.drop_last());
        if s.last() == '/' {
            parts.push(Seq::<char>::empty())
        } else {
            parts.update(parts.len() - 1, parts.last().push(s.last()))
        }
    }
}

/// The segment that one non-empty piece of a path denotes: an index when it
/// parses as `usize`, a key otherwise.
pub open spec fn piece_segment(p: Seq<char>) -> Seg {
    match spec_parse_usize(p) {
        Some(i) => Seg::Index(i),
        None => Seg::Key(p),
    }
}

/// Segments of the given pieces, skipping empty ones.
pub open spec fn pieces_segments(ps: Seq<Seq<char>>) -> Seq<Seg>
    decreases ps.len(),
{
    if ps.len() == 0 {
        Seq::empty()
    } else {
        let rest = pieces_segments(ps.drop_last());
        if ps.last().len() == 0 {
            rest
        } else {
            rest.push(piece_segment(ps.last()))
        }
    }
}

/// What `SxPath::parse` accepts and returns.
pub open spec fn spec_parse_path(s: Seq<char>) -> Option<Seq<Seg>> {
    if s.len() == 0 || s == seq!['/'] {
        Some(Seq::empty())
    } else if s[0] != '/' {
        None
    } else {
        Some(pieces_segments(split_slash(s).drop_first()))
    }
}

/// The text of a path: `/` for the root, else `/seg` for each segment.
pub open spec fn path_text(p: Seq<Seg>) -> Seq<char> {
    if p.len() == 0 {
        seq!['/']
    } else {
        segs_text(p)
    }
}

pub open spec fn segs_text(p: Seq<Seg>) -> Seq<char>
    decreases p.len(),
{
    if p.len() == 0 {
        Seq::empty()
    } else {
        segs_text(p.drop_last()) + seq!['/'] + match p.last() {
            Seg::Key(k) => k,
            Seg::Index(i) => decimal_text(i as nat),
        }
    }
}

proof fn lemma_split_slash_nonempty(s: Seq<char>)
    ensures
        split_slash(s).len() >= 1,
    decreases s.len(),
{
    if s.len() > 0 {
        lemma_split_slash_nonempty(s.drop_last());
    }
}

impl SxPath {
    /// Creates an empty root path.
    pub fn root() -> (r: SxPath)
        ensures
            r@ == Seq::<Seg>::empty(),
    {
        SxPath { segments: Vec::new() }
    }

    /// Copies a path, keeping its view.
    pub fn copy_path(&self) -> (r: SxPath)
        ensures
            r@ == self@,
    {
        let mut out: Vec<SxPathSegment> = Vec::new();
        let mut i: usize = 0;
        while i < self.segments.len()
            invariant
                i <= self.segments.len(),
                out@.map_values(|s: SxPathSegment| s.view_seg()) =~= self@.subrange(0, i as int),
            decreases self.segments.len() - i,
        {
            let s = self.segments[i].copy_seg();
            let ghost o = out@;
            out.push(s);
            proof {
                assert(out@.map_values(|s: SxPathSegment| s.view_seg()) =~= o.map_values(|s: SxPathSegment| s.view_seg()).push(s.view_seg()));
                assert(self@.subrange(0, i + 1) =~= self@.subrange(0, i as int).push(self@[i as int]));
            }
            i += 1;
        }
        let r = SxPath { segments: out };
        assert(r@ =~= self@);
        r
    }

    /// Returns child path with appended key.
    pub fn key(&self, key: &str) -> (r: SxPath)
        ensures
            r@ == self@.push(Seg::Key(key@)),
    {
        let mut next = self.copy_path();
        next.segments.push(SxPathSegment::Key(key.to_owned()));
        assert(next@ =~= self@.push(Seg::Key(key@)));
        next
    }

    /// Returns child path with appended index.
    pub fn index(&self, index: usize) -> (r: SxPath)
        ensures
            r@ == self@.push(Seg::Index(index)),
    {
        let mut next = self.copy_path();
        next.segments.push(SxPathSegment::Index(index));
        assert(next@ =~= self@.push(Seg::Index(index)));
        next
    }

    /// Parses a slash-separated path such as `/user/name` or `/items/0`.
    /// Empty pieces are skipped; pieces that parse as `usize` are indexes.
    pub fn parse(input: &str) -> (r: SxResult<SxPath>)
        ensures
            spec_parse_path(input@) is None <==> r is Err,
            r matches Ok(p) ==> spec_parse_path(input@) == Some(p@),
            r matches Err(e) ==> e.code == SxErrorCode::InvalidPath && e.message@ == "path must start with '/'"@,
    {
        let n = input.unicode_len();
        if n == 0 {
            return Ok(SxPath::root());
        }
        let c0 = input.get_char(0);
        if n == 1 && c0 == '/' {
            assert(input@ =~= seq!['/']);
            return Ok(SxPath::root());
        }
        if c0 != '/' {
            return Err(SxError::msg(SxErrorCode::InvalidPath, "path must start with '/'"));
        }
        let ghost s = input@;
        let mut out: Vec<SxPathSegment> = Vec::new();
        let mut cur: Vec<char> = Vec::new();
        let mut i: usize = 1;
        assert(split_slash(s.subrange(0, 1)) =~= seq![Seq::<char>::empty(), Seq::<char>::empty()]) by {
            assert(s.subrange(0, 1).drop_last() =~= Seq::<char>::empty());
            assert(split_slash(Seq::<char>::empty()) == seq![Seq::<char>::empty()]);
        }
        while i < n
            invariant
                1 <= i <= n,
                n == s.len(),
                s == input@,
                s[0] == '/',
                ({
                    let parts = split_slash(s.subrange(0, i as int));
                    &&& parts.len() >= 2
                    &&& cur@ == parts.last()
                    &&& out@.map_values(|g: SxPathSegment| g.view_seg())
                        == pieces_segments(parts.subrange(1, parts.len() - 1))
                }),
            decreases n - i,
        {
            let c = input.get_char(i);
            let ghost prev = split_slash(s.subrange(0, i as int));
            assert(s.subrange(0, i + 1).drop_last() =~= s.subrange(0, i as int));
            if c == '/' {
                let ghost old_out = out@;
                if cur.len() > 0 {
                    let seg = match parse_usize(&cur) {
                        Some(k) => SxPathSegment::Index(k),
                        None => SxPathSegment::Key(chars_to_string(&cur)),
                    };
                    out.push(seg);
                }
                cur = Vec::new();
                proof {
                    let next = split_slash(s.subrange(0, i + 1));
                    assert(next == prev.push(Seq::<char>::empty()));
                    assert(next.subrange(1, next.len() - 1) =~= prev.subrange(1, prev.len() as int));
                    assert(prev.subrange(1, prev.len() as int).drop_last() =~= prev.subrange(1, prev.len() - 1));
                    assert(out@.map_values(|g: SxPathSegment| g.view_seg()) =~= pieces_segments(next.subrange(1, next.len() - 1)));
                }
            } else {
                cur.push(c);
                proof {
                    let next = split_slash(s.subrange(0, i + 1));
                    assert(next == prev.update(prev.len() - 1, prev.last().push(c)));
                    assert(next.subrange(1, next.len() - 1) =~= prev.subrange(1, prev.len() - 1));
                }
            }
            i += 1;
        }
        let ghost parts = split_slash(s.subrange(0, i as int));
        assert(s.subrange(0, i as int) =~= s);
        if cur.len() > 0 {
            let seg = match parse_usize(&cur) {
                Some(k) => SxPathSegment::Index(k),
                None => SxPathSegment::Key(chars_to_string(&cur)),
            };
            out.push(seg);
        }
        proof {
            assert(parts.subrange(1, parts.len() as int).drop_last() =~= parts.subrange(1, parts.len() - 1));
            assert(parts.drop_first() =~= parts.subrange(1, parts.len() as int));
        }
        let r = SxPath { segments: out };
        assert(r@ =~= pieces_segments(parts.drop_first()));
        Ok(r)
    }

    /// Renders the path as text: `/` for the root, else `/a/0/b`.
    pub fn to_text(&self) -> (r: String)
        ensures
            r@ == path_text(self@),
    {
        let mut out = String::new();
        if self.segments.len() == 0 {
            string_push(&mut out, '/');
            return out;
        }
        let mut i: usize = 0;
        while i < self.segments.len()
            invariant
                i <= self.segments.len(),
                out@ == segs_text(self@.subrange(0, i as int)),
            decreases self.segments.len() - i,
        {
            string_push(&mut out, '/');
            match &self.segments[i] {
                SxPathSegment::Key(k) => out.append(k.as_str()),
                SxPathSegment::Index(x) => {
                    let t = u64_to_decimal(*x as u64);
                    out.append(t.as_str());
                },
            }
            proof {
                assert(self@.subrange(0, i + 1).drop_last() =~= self@.subrange(0, i as int));
            }
            i += 1;
        }
        assert(self@.subrange(0, i as int) =~= self@);
        out
    }
}

/// Builds a `String` from a vector of characters.
pub fn chars_to_string(cs: &Vec<char>) -> (r: String)
    ensures
        r@ == cs@,
{
    let mut s = String::new();
    let mut i: usize = 0;
    while i < cs.len()
        invariant
            i <= cs.len(),
            s@ == cs@.subrange(0, i as int),
        decreases cs.len() - i,
    {
        string_push(&mut s, cs[i]);
        assert(cs@.subrange(0, i + 1) =~= cs@.subrange(0, i as int).push(cs@[i as int]));
        i += 1;
    }
    assert(cs@.subrange(0, i as int) =~= cs@);
    s
}


// ---------------------------------------------------------------------------
// Parsing a printed path
// ---------------------------------------------------------------------------

/// The text one segment prints as.
pub open spec fn seg_text(g: Seg) -> Seq<char> {
    match g {
        Seg::Key(k) => k,
        Seg::Index(i) => decimal_text(i as nat),
    }
}

/// A segment that prints as a text its parse gives back: an index, or a
/// key that is not empty, holds no `/` and does not read as an index.
pub open spec fn reparses(g: Seg) -> bool {
    match g {
        Seg::Key(k) => k.len() > 0 && !k.contains('/') && spec_parse_usize(k) is None,
        Seg::Index(_) => true,
    }
}

proof fn lemma_digit_char(d: nat)
    requires
        d < 10,
    ensures
        is_digit(digit_char(d)),
        digit_value(digit_char(d)) == d,
{
    let u: u32 = (d + '0' as nat) as u32;
    assert(u == d + 48);
    assert((u as char) as nat == u as nat);
}

proof fn lemma_decimal_text(n: nat)
    ensures
        decimal_text(n).len() > 0,
        all_digits(decimal_text(n)),
        digits_value(decimal_text(n)) == n,
    decreases n,
{
    lemma_digit_char(n % 10);
    if n < 10 {
        let u = seq![digit_char(n)];
        assert(decimal_text(n) == u);
        assert(u.drop_last() =~= Seq::<char>::empty());
        assert(digits_value(Seq::<char>::empty()) == 0);
        assert(digits_value(u) == digits_value(u.drop_last()) * 10 + digit_value(u.last()));
        assert(is_digit(u[0]));
    }
    if n >= 10 {
        lemma_decimal_text(n / 10);
        let t = decimal_text(n / 10);
        let u = t.push(digit_char(n % 10));
        assert(decimal_text(n) == u);
        assert(u.drop_last() =~= t);
        assert(u.last() == digit_char(n % 10));
        assert(digits_value(u) == digits_value(t) * 10 + digit_value(digit_char(n % 10)));
        assert(n == (n / 10) * 10 + n % 10) by (nonlinear_arith);
        assert(digits_value(t) == n / 10);
        assert(digits_value(u) == n);
        assert forall|i: int| 0 <= i < u.len() implies #[trigger] is_digit(u[i]) by {
            if i < t.len() {
                assert(u[i] == t[i]);
            }
        }
    }
}

proof fn lemma_index_reparses(i: usize)
    ensures
        spec_parse_usize(decimal_text(i as nat)) == Some(i),
        decimal_text(i as nat).len() > 0,
        !decimal_text(i as nat).contains('/'),
{
    lemma_decimal_text(i as nat);
    let t = decimal_text(i as nat);
    assert(is_digit(t[0]));
    if t.contains('/') {
        let j = choose|j: int| 0 <= j < t.len() && t[j] == '/';
        assert(is_digit(t[j]));
    }
}

/// Splitting at `/` after one more `/` and a piece without `/` adds that
/// piece.
proof fn lemma_split_piece(s: Seq<char>, t: Seq<char>)
    requires
        !t.contains('/'),
    ensures
        split_slash(s + seq!['/'] + t) == split_slash(s).push(t),
    decreases t.len(),
{
    lemma_split_slash_nonempty(s);
    let w = s + seq!['/'] + t;
    if t.len() == 0 {
        assert(w =~= s.push('/'));
        assert(w.drop_last() =~= s);
        assert(w.last() == '/');
        assert(split_slash(w) == split_slash(w.drop_last()).push(Seq::<char>::empty()));
        assert(t =~= Seq::<char>::empty());
    } else {
        let t0 = t.drop_last();
        assert(!t0.contains('/')) by {
            if t0.contains('/') {
                let j = choose|j: int| 0 <= j < t0.len() && t0[j] == '/';
                assert(t[j] == '/');
            }
        }
        assert(t.last() != '/') by {
            if t.last() == '/' {
                assert(t[t.len() - 1] == '/');
            }
        }
        lemma_split_piece(s, t0);
        assert(w.drop_last() =~= s + seq!['/'] + t0);
        assert(w.last() == t.last());
        let parts = split_slash(w.drop_last());
        assert(parts == split_slash(s).push(t0));
        assert(split_slash(w) == parts.update(parts.len() - 1, parts.last().push(w.last())));
        assert(t0.push(t.last()) =~= t);
        assert(split_slash(s).push(t0).update(split_slash(s).len() as int, t) =~= split_slash(s).push(t));
    }
}

/// The pieces a printed path splits into: an empty one, then each
/// segment's text.
proof fn lemma_split_segs(p: Seq<Seg>)
    requires
        forall|i: int| 0 <= i < p.len() ==> reparses(#[trigger] p[i]),
    ensures
        split_slash(segs_text(p)) == seq![Seq::<char>::empty()] + p.map_values(|g: Seg| seg_text(g)),
    decreases p.len(),
{
    if p.len() == 0 {
        assert(seq![Seq::<char>::empty()] + p.map_values(|g: Seg| seg_text(g)) =~= seq![Seq::<char>::empty()]);
    } else {
        let q = p.drop_last();
        assert forall|i: int| 0 <= i < q.len() implies reparses(#[trigger] q[i]) by {
            assert(q[i] == p[i]);
        }
        lemma_split_segs(q);
        let g = p.last();
        assert(reparses(p[p.len() - 1]));
        assert(!seg_text(g).contains('/')) by {
            if let Seg::Index(i) = g {
                lemma_index_reparses(i);
            }
        }
        lemma_split_piece(segs_text(q), seg_text(g));
        assert(segs_text(p) == segs_text(q) + seq!['/'] + seg_text(g));
        assert(seq![Seq::<char>::empty()] + q.map_values(|g: Seg| seg_text(g)).push(seg_text(g))
            =~= seq![Seq::<char>::empty()] + p.map_values(|g: Seg| seg_text(g)));
    }
}

proof fn lemma_pieces_segs(p: Seq<Seg>)
    requires
        forall|i: int| 0 <= i < p.len() ==> reparses(#[trigger] p[i]),
    ensures
        pieces_segments(p.map_values(|g: Seg| seg_text(g))) == p,
    decreases p.len(),
{
    let ts = p.map_values(|g: Seg| seg_text(g));
    if p.len() == 0 {
        assert(ts =~= Seq::<Seq<char>>::empty());
    } else {
        let q = p.drop_last();
        assert forall|i: int| 0 <= i < q.len() implies reparses(#[trigger] q[i]) by {
            assert(q[i] == p[i]);
        }
        lemma_pieces_segs(q);
        assert(ts.drop_last() =~= q.map_values(|g: Seg| seg_text(g)));
        assert(reparses(p[p.len() - 1]));
        match p.last() {
            Seg::Index(i) => {
                lemma_index_reparses(i);
            },
            Seg::Key(k) => {},
        }
        assert(ts.last() == seg_text(p.last()));
        assert(q.push(p.last()) =~= p);
    }
}

/// Parsing the printed text of a path gives the path back, when each key
/// is not empty, holds no `/` and does not read as an index.
pub proof fn law_path_parse_after_print(p: Seq<Seg>)
    requires
        forall|i: int| 0 <= i < p.len() ==> reparses(#[trigger] p[i]),
    ensures
        spec_parse_path(path_text(p)) == Some(p),
{
    if p.len() > 0 {
        let s = segs_text(p);
        lemma_split_segs(p);
        lemma_pieces_segs(p);
        let q = p.drop_last();
        let g = p.last();
        assert(reparses(p[p.len() - 1]));
        assert(seg_text(g).len() > 0) by {
            if let Seg::Index(i) = g {
                lemma_index_reparses(i);
            }
        }
        assert(s == segs_text(q) + seq!['/'] + seg_text(g));
        assert(s.len() >= 2);
        lemma_segs_text_starts(p);
        assert((seq![Seq::<char>::empty()] + p.map_values(|g: Seg| seg_text(g))).drop_first()
            =~= p.map_values(|g: Seg| seg_text(g)));
    }
}

proof fn lemma_segs_text_starts(p: Seq<Seg>)
    requires
        p.len() > 0,
    ensures
        segs_text(p).len() > 0,
        segs_text(p)[0] == '/',
    decreases p.len(),
{
    let q = p.drop_last();
    if q.len() > 0 {
        lemma_segs_text_starts(q);
    }
    let s = segs_text(q) + seq!['/'] + seg_text(p.last());
    assert(segs_text(p) == s);
    if q.len() == 0 {
        assert(segs_text(q) =~= Seq::<char>::empty());
        assert(s[0] == '/');
    } else {
        assert(s[0] == segs_text(q)[0]);
    }
}

} // verus!

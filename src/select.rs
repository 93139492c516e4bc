//! The selection list: one dotted path per line, `#` starting a comment.
use vstd::prelude::*;
use vstd::string::*;
use crate::svd::{get_descendants_by_tag, get_svd_parent_chain, names_are, SvdError, Tag, Tree};

verus! {

/// Characters with the Unicode `White_Space` property.
pub open spec fn is_space(c: char) -> bool {
    let u = c as u32;
    (0x09 <= u && u <= 0x0d) || u == 0x20 || u == 0x85 || u == 0xa0 || u == 0x1680 || (0x2000
        <= u && u <= 0x200a) || u == 0x2028 || u == 0x2029 || u == 0x202f || u == 0x205f || u
        == 0x3000
}

fn space(c: char) -> (r: bool)
    ensures
        r == is_space(c),
{
    let u = c as u32;
    (0x09 <= u && u <= 0x0d) || u == 0x20 || u == 0x85 || u == 0xa0 || u == 0x1680 || (0x2000
        <= u && u <= 0x200a) || u == 0x2028 || u == 0x2029 || u == 0x202f || u == 0x205f || u
        == 0x3000
}

/// The line up to its first `#`.
pub open spec fn before_hash(t: Seq<char>) -> Seq<char>
    decreases t.len(),
{
    if t.len() == 0 || t[0] == '#' {
        seq![]
    } else {
        seq![t[0]] + before_hash(t.drop_first())
    }
}

pub open spec fn trim_start(t: Seq<char>) -> Seq<char>
    decreases t.len(),
{
    if t.len() > 0 && is_space(t[0]) {
        trim_start(t.drop_first())
    } else {
        t
    }
}

pub open spec fn trim_end(t: Seq<char>) -> Seq<char>
    decreases t.len(),
{
    if t.len() > 0 && is_space(t.last()) {
        trim_end(t.drop_last())
    } else {
        t
    }
}

/// What a line selects: its text before any `#`, without surrounding white space.
pub open spec fn entry(t: Seq<char>) -> Seq<char> {
    trim_end(trim_start(before_hash(t)))
}

/// The pieces of the text between `\n` characters.
pub open spec fn text_lines(s: Seq<char>) -> Seq<Seq<char>>
    decreases s.len(),
{
    if s.len() == 0 {
        seq![seq![]]
    } else {
        let p = text_lines(s.drop_last());
        if s.last() == '\n' {
            p.push(seq![])
        } else {
            p.update(p.len() - 1, p.last().push(s.last()))
        }
    }
}

/// The non-empty entries of the lines, in order.
pub open spec fn entries(lines: Seq<Seq<char>>) -> Seq<Seq<char>>
    decreases lines.len(),
{
    if lines.len() == 0 {
        seq![]
    } else {
        let e = entry(lines.last());
        if e.len() > 0 {
            entries(lines.drop_last()).push(e)
        } else {
            entries(lines.drop_last())
        }
    }
}

proof fn lemma_before_hash(t: Seq<char>, j: int)
    requires
        0 <= j <= t.len(),
        forall|m: int| 0 <= m < j ==> t[m] != '#',
        j == t.len() || t[j] == '#',
    ensures
        before_hash(t) == t.subrange(0, j),
    decreases t.len(),
{
    if t.len() > 0 && t[0] != '#' {
        let r = t.drop_first();
        assert forall|m: int| 0 <= m < j - 1 implies r[m] != '#' by {
            assert(r[m] == t[m + 1]);
        }
        lemma_before_hash(r, j - 1);
        assert(seq![t[0]] + r.subrange(0, j - 1) =~= t.subrange(0, j));
    } else {
        assert(t.subrange(0, j) =~= Seq::<char>::empty());
    }
}

proof fn lemma_trim_start(t: Seq<char>, a: int)
    requires
        0 <= a <= t.len(),
        forall|m: int| 0 <= m < a ==> is_space(t[m]),
        a == t.len() || !is_space(t[a]),
    ensures
        trim_start(t) == t.subrange(a, t.len() as int),
    decreases t.len(),
{
    if t.len() > 0 && is_space(t[0]) {
        let r = t.drop_first();
        assert forall|m: int| 0 <= m < a - 1 implies is_space(r[m]) by {
            assert(r[m] == t[m + 1]);
        }
        lemma_trim_start(r, a - 1);
        assert(r.subrange(a - 1, r.len() as int) =~= t.subrange(a, t.len() as int));
    } else {
        assert(t.subrange(0, t.len() as int) =~= t);
    }
}

proof fn lemma_trim_end(t: Seq<char>, b: int)
    requires
        0 <= b <= t.len(),
        forall|m: int| b <= m < t.len() ==> is_space(t[m]),
        b == 0 || !is_space(t[b - 1]),
    ensures
        trim_end(t) == t.subrange(0, b),
    decreases t.len(),
{
    if t.len() > 0 && is_space(t.last()) {
        let r = t.drop_last();
        lemma_trim_end(r, b);
        assert(r.subrange(0, b) =~= t.subrange(0, b));
    } else {
        assert(t.subrange(0, t.len() as int) =~= t);
    }
}

/// The entry of the line `s[ls..le]`, when it is not empty.
fn line_entry(s: &str, ls: usize, le: usize) -> (r: Option<String>)
    requires
        ls <= le <= s@.len(),
    ensures
        r is Some <==> entry(s@.subrange(ls as int, le as int)).len() > 0,
        r is Some ==> r->Some_0@ == entry(s@.subrange(ls as int, le as int)),
{
    let ghost t = s@.subrange(ls as int, le as int);
    let mut cut: usize = ls;
    while cut < le && s.get_char(cut) != '#'
        invariant
            ls <= cut <= le <= s@.len(),
            t == s@.subrange(ls as int, le as int),
            forall|m: int| 0 <= m < cut - ls ==> t[m] != '#',
        decreases le - cut,
    {
        cut = cut + 1;
    }
    proof {
        lemma_before_hash(t, cut - ls);
    }
    let ghost u = t.subrange(0, cut - ls);
    let mut lo: usize = ls;
    while lo < cut && space(s.get_char(lo))
        invariant
            ls <= lo <= cut <= le <= s@.len(),
            u == s@.subrange(ls as int, cut as int),
            forall|m: int| 0 <= m < lo - ls ==> is_space(u[m]),
        decreases cut - lo,
    {
        lo = lo + 1;
    }
    proof {
        lemma_trim_start(u, lo - ls);
    }
    let ghost v = u.subrange(lo - ls, u.len() as int);
    let mut hi: usize = cut;
    while hi > lo && space(s.get_char(hi - 1))
        invariant
            ls <= lo <= hi <= cut <= le <= s@.len(),
            v == s@.subrange(lo as int, cut as int),
            forall|m: int| hi - lo <= m < v.len() ==> is_space(v[m]),
        decreases hi - lo,
    {
        hi = hi - 1;
    }
    proof {
        lemma_trim_end(v, hi - lo);
        assert(v.subrange(0, hi - lo) =~= s@.subrange(lo as int, hi as int));
    }
    if lo < hi {
        Some(String::from_str(s.substring_char(lo, hi)))
    } else {
        None
    }
}

/// The selections in a list: each line cut at its first `#` and trimmed of
/// white space, the empty ones left out.
pub fn parse_lines(s: &str) -> (r: Vec<String>)
    ensures
        r@.len() == entries(text_lines(s@)).len(),
        forall|k: int| 0 <= k < r@.len() ==> (#[trigger] r@[k])@ == entries(text_lines(s@))[k],
{
    let n = s.unicode_len();
    let mut r: Vec<String> = Vec::new();
    let ghost mut done: Seq<Seq<char>> = seq![];
    let mut ls: usize = 0;
    let mut i: usize = 0;
    assert(s@.subrange(0, 0) =~= Seq::<char>::empty());
    while i < n
        invariant
            n == s@.len(),
            0 <= ls <= i <= n,
            text_lines(s@.subrange(0, i as int)) == done.push(s@.subrange(ls as int, i as int)),
            r@.len() == entries(done).len(),
            forall|k: int| 0 <= k < r@.len() ==> (#[trigger] r@[k])@ == entries(done)[k],
        decreases n - i,
    {
        let c = s.get_char(i);
        let ghost prev = s@.subrange(0, i as int);
        assert(s@.subrange(0, i + 1).drop_last() =~= prev);
        if c == '\n' {
            let e = line_entry(s, ls, i);
            proof {
                let line = s@.subrange(ls as int, i as int);
                assert(done.push(line).drop_last() =~= done);
                done = done.push(line);
            }
            match e {
                Some(e) => r.push(e),
                None => {},
            }
            ls = i + 1;
            assert(s@.subrange(ls as int, i + 1) =~= Seq::<char>::empty());
        } else {
            assert(s@.subrange(ls as int, i + 1) =~= s@.subrange(ls as int, i as int).push(c));
            assert(text_lines(s@.subrange(0, i + 1)) =~= done.push(s@.subrange(ls as int, i + 1)));
        }
        i = i + 1;
    }
    let e = line_entry(s, ls, n);
    proof {
        let line = s@.subrange(ls as int, n as int);
        assert(s@.subrange(0, n as int) =~= s@);
        assert(done.push(line).drop_last() =~= done);
        done = done.push(line);
    }
    match e {
        Some(e) => r.push(e),
        None => {},
    }
    r
}

/// The names joined by `.`.
pub open spec fn dotted(c: Seq<Seq<char>>) -> Seq<char>
    decreases c.len(),
{
    if c.len() == 0 {
        seq![]
    } else if c.len() == 1 {
        c[0]
    } else {
        dotted(c.drop_last()) + seq!['.'] + c.last()
    }
}

/// The clusters among `cls` whose dotted path is one of `sels`, in order.
pub open spec fn chosen(tree: &Tree, cls: Seq<usize>, sels: Seq<Seq<char>>) -> Seq<usize>
    decreases cls.len(),
{
    if cls.len() == 0 {
        seq![]
    } else {
        let rest = chosen(tree, cls.drop_last(), sels);
        let path = dotted(tree.name_chain(cls.last() as int)->Some_0);
        if sels.contains(path) {
            rest.push(cls.last())
        } else {
            rest
        }
    }
}

fn join_dotted(names: &Vec<String>) -> (r: String)
    ensures
        r@ == dotted(names@.map_values(|n: String| n@)),
{
    let ghost c = names@.map_values(|n: String| n@);
    let mut r = String::new();
    let mut k: usize = 0;
    while k < names.len()
        invariant
            0 <= k <= names@.len(),
            c == names@.map_values(|n: String| n@),
            r@ == dotted(c.subrange(0, k as int)),
        decreases names@.len() - k,
    {
        assert(c.subrange(0, k + 1).drop_last() =~= c.subrange(0, k as int));
        if k > 0 {
            r = r.concat(".");
        }
        proof {
            reveal_strlit(".");
        }
        r = r.concat(names[k].as_str());
        k = k + 1;
        assert(r@ =~= dotted(c.subrange(0, k as int)));
    }
    assert(c.subrange(0, names@.len() as int) =~= c);
    r
}

fn listed(sels: &Vec<String>, path: &String) -> (r: bool)
    ensures
        r == sels@.map_values(|n: String| n@).contains(path@),
{
    let ghost v = sels@.map_values(|n: String| n@);
    let mut k: usize = 0;
    while k < sels.len()
        invariant
            0 <= k <= sels@.len(),
            v == sels@.map_values(|n: String| n@),
            forall|m: int| 0 <= m < k ==> v[m] != path@,
        decreases sels@.len() - k,
    {
        if sels[k] == *path {
            assert(v[k as int] == path@);
            return true;
        }
        k = k + 1;
    }
    false
}

/// The clusters of the document whose dotted path is listed in `sels`, in
/// document order. Fails when a cluster's path has a nameless step.
pub fn select_clusters(tree: &Tree, sels: &Vec<String>) -> (r: Result<Vec<usize>, SvdError>)
    requires
        tree.wf(),
        tree.nodes@.len() > 0,
    ensures
        ({
            let cls = tree.tagged_within(0, Tag::Cluster, tree.nodes@.len() as int);
            &&& r is Ok <==> forall|k: int| 0 <= k < cls.len() ==> (#[trigger] tree.name_chain(cls[k] as int)) is Some
            &&& r is Ok ==> r->Ok_0@ == chosen(tree, cls, sels@.map_values(|n: String| n@))
            &&& r is Err ==> r->Err_0 == SvdError::MissingNameElement
        }),
{
    let ghost sv = sels@.map_values(|n: String| n@);
    let cls = get_descendants_by_tag(tree, 0, Tag::Cluster);
    let n = tree.nodes.len();
    let mut r: Vec<usize> = Vec::new();
    let mut k: usize = 0;
    assert(cls@.subrange(0, 0) =~= Seq::<usize>::empty());
    while k < cls.len()
        invariant
            tree.wf(),
            n == tree.nodes@.len(),
            cls@ == tree.tagged_within(0, Tag::Cluster, n as int),
            sv == sels@.map_values(|n: String| n@),
            0 <= k <= cls@.len(),
            forall|m: int| 0 <= m < k ==> (#[trigger] tree.name_chain(cls@[m] as int)) is Some,
            r@ == chosen(tree, cls@.subrange(0, k as int), sv),
        decreases cls@.len() - k,
    {
        proof {
            crate::svd::lemma_tagged_within_in(tree, 0, Tag::Cluster, n as int, k as int);
        }
        let cl = cls[k];
        let chain = match get_svd_parent_chain(tree, cl) {
            Ok(c) => c,
            Err(e) => return Err(e),
        };
        let path = join_dotted(&chain);
        proof {
            let c = tree.name_chain(cl as int)->Some_0;
            assert(chain@.map_values(|n: String| n@) =~= c);
            assert(cls@.subrange(0, k + 1).drop_last() =~= cls@.subrange(0, k as int));
        }
        if listed(sels, &path) {
            r.push(cl);
        }
        k = k + 1;
    }
    assert(cls@.subrange(0, cls@.len() as int) =~= cls@);
    Ok(r)
}

} // verus!

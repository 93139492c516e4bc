//! A read-only arena over a register-description document, the naming and
//! offset rules of its elements, and the plan that flattens a cluster.
use vstd::prelude::*;
use vstd::string::*;
use crate::replace::{batch_ok, law_nested_plan_is_batch, nested_plan, ReplaceRange};

verus! {

/// The element kinds the logic tells apart; every other element or text node is `Other`.
#[derive(Debug, Clone, Copy, PartialEq, Eq, Structural)]
pub enum Tag {
    Peripheral,
    Cluster,
    Register,
    Name,
    AddressOffset,
    Other,
}

#[derive(Debug, Clone, Copy, PartialEq, Eq, Structural)]
pub enum SvdError {
    /// A peripheral, cluster or register has no `name` child.
    MissingNameElement,
    /// An offset literal is empty, has a digit outside its base, or exceeds `u64`.
    InvalidNumericLiteral,
    /// A cluster has no `addressOffset` element.
    MissingAddressOffset,
    /// A cluster to flatten sits at a non-zero offset.
    UnsupportedClusterOffset,
}

/// One node of the document: its kind, its text (for an element, the text
/// that opens its content), its parent and children as indices, and the bytes
/// it covers in the source text.
pub struct Node {
    pub tag: Tag,
    pub text: Option<String>,
    pub parent: Option<usize>,
    pub children: Vec<usize>,
    pub range: std::ops::Range<usize>,
}

/// The nodes of a document in document order; index 0 is the root.
pub struct Tree {
    pub nodes: Vec<Node>,
}

pub open spec fn tag_of(name: Seq<char>) -> Tag {
    if name == "peripheral"@ {
        Tag::Peripheral
    } else if name == "cluster"@ {
        Tag::Cluster
    } else if name == "register"@ {
        Tag::Register
    } else if name == "name"@ {
        Tag::Name
    } else if name == "addressOffset"@ {
        Tag::AddressOffset
    } else {
        Tag::Other
    }
}

impl Tag {
    /// The kind of an element with this tag name.
    pub fn from_name(name: &str) -> (r: Tag)
        ensures
            r == tag_of(name@),
    {
        proof {
            reveal_strlit("peripheral");
            reveal_strlit("cluster");
            reveal_strlit("register");
            reveal_strlit("name");
            reveal_strlit("addressOffset");
        }
        let n = name.to_owned();
        if n == "peripheral".to_owned() {
            Tag::Peripheral
        } else if n == "cluster".to_owned() {
            Tag::Cluster
        } else if n == "register".to_owned() {
            Tag::Register
        } else if n == "name".to_owned() {
            Tag::Name
        } else if n == "addressOffset".to_owned() {
            Tag::AddressOffset
        } else {
            Tag::Other
        }
    }

    /// Peripherals, clusters and registers carry the names of a dotted path.
    pub open spec fn spec_is_tiered(self) -> bool {
        self == Tag::Peripheral || self == Tag::Cluster || self == Tag::Register
    }

    pub fn is_tiered(&self) -> (r: bool)
        ensures
            r == self.spec_is_tiered(),
    {
        *self == Tag::Peripheral || *self == Tag::Cluster || *self == Tag::Register
    }
}

impl Tree {
    /// Every node is well placed: see `node_ok`.
    pub open spec fn wf(&self) -> bool {
        forall|i: int| 0 <= i < self.nodes@.len() ==> #[trigger] self.node_ok(i)
    }

    /// Node `i` comes after its parent and its span does not run backwards;
    /// each child comes after it, names it as parent and lies inside its span;
    /// the spans of its children are in order and do not overlap.
    pub open spec fn node_ok(&self, i: int) -> bool {
        &&& self.nodes@[i].parent is Some ==> self.nodes@[i].parent->Some_0 < i
        &&& self.nodes@[i].range.start <= self.nodes@[i].range.end
        &&& forall|k: int|
            0 <= k < self.nodes@[i].children@.len() ==> self.child_ok(
                i,
                #[trigger] self.nodes@[i].children@[k],
            )
        &&& forall|k: int, m: int|
            #![trigger self.nodes@[i].children@[k], self.nodes@[i].children@[m]]
            0 <= k < m < self.nodes@[i].children@.len() ==> self.nodes@[self.nodes@[i].children@[k] as int].range.end
                <= self.nodes@[self.nodes@[i].children@[m] as int].range.start
    }

    /// `c` is a node after `i` whose parent is `i` and whose span, not running
    /// backwards, lies inside `i`'s.
    pub open spec fn child_ok(&self, i: int, c: usize) -> bool {
        &&& i < c < self.nodes@.len()
        &&& self.nodes@[c as int].parent == Some(i as usize)
        &&& self.nodes@[c as int].range.start <= self.nodes@[c as int].range.end
        &&& self.nodes@[i].range.start <= self.nodes@[c as int].range.start
        &&& self.nodes@[c as int].range.end <= self.nodes@[i].range.end
    }

    /// `j` is `root` or lies below it.
    pub open spec fn within(&self, j: int, root: int) -> bool
        decreases j,
    {
        if j == root {
            true
        } else if 0 <= j < self.nodes@.len() && self.nodes@[j].parent is Some
            && self.nodes@[j].parent->Some_0 < j {
            self.within(self.nodes@[j].parent->Some_0 as int, root)
        } else {
            false
        }
    }

    /// The nodes in `[root, hi)` that are `root` or below it and carry `tag`, in order.
    pub open spec fn tagged_within(&self, root: int, tag: Tag, hi: int) -> Seq<usize>
        decreases hi - root,
    {
        if hi <= root {
            seq![]
        } else {
            let rest = self.tagged_within(root, tag, hi - 1);
            if self.within(hi - 1, root) && self.nodes@[hi - 1].tag == tag {
                rest.push((hi - 1) as usize)
            } else {
                rest
            }
        }
    }

    /// The nodes among `kids` that carry `tag`, in order.
    pub open spec fn tagged_among(&self, kids: Seq<usize>, tag: Tag) -> Seq<usize>
        decreases kids.len(),
    {
        if kids.len() == 0 {
            seq![]
        } else {
            let rest = self.tagged_among(kids.drop_last(), tag);
            if self.nodes@[kids.last() as int].tag == tag {
                rest.push(kids.last())
            } else {
                rest
            }
        }
    }

    /// The name of node `i`: the text of its first `name` child, empty when
    /// that child holds no text.
    pub open spec fn name_of(&self, i: int) -> Option<Seq<char>> {
        let named = self.tagged_among(self.nodes@[i].children@, Tag::Name);
        if named.len() == 0 {
            None
        } else {
            match self.nodes@[named[0] as int].text {
                Some(t) => Some(t@),
                None => Some(seq![]),
            }
        }
    }

    /// The names of the peripheral, cluster and register nodes from the root
    /// down to `i`, or `None` when one of them has no name.
    pub open spec fn name_chain(&self, i: int) -> Option<Seq<Seq<char>>>
        decreases i,
    {
        let above = if 0 <= i < self.nodes@.len() && self.nodes@[i].parent is Some
            && self.nodes@[i].parent->Some_0 < i {
            self.name_chain(self.nodes@[i].parent->Some_0 as int)
        } else {
            Some(seq![])
        };
        match above {
            None => None,
            Some(c) => if self.nodes@[i].tag.spec_is_tiered() {
                match self.name_of(i) {
                    Some(n) => Some(c.push(n)),
                    None => None,
                }
            } else {
                Some(c)
            },
        }
    }

    /// Tells whether `j` is `root` or lies below it.
    pub fn is_within(&self, j: usize, root: usize) -> (r: bool)
        requires
            self.wf(),
            j < self.nodes@.len(),
        ensures
            r == self.within(j as int, root as int),
        decreases j,
    {
        if j == root {
            return true;
        }
        assert(self.node_ok(j as int));
        match self.nodes[j].parent {
            Some(p) => self.is_within(p, root),
            None => false,
        }
    }
}

/// The nodes at or below `root` whose tag is `tag`, in document order.
pub fn get_descendants_by_tag(tree: &Tree, root: usize, tag: Tag) -> (r: Vec<usize>)
    requires
        tree.wf(),
        root < tree.nodes@.len(),
    ensures
        r@ == tree.tagged_within(root as int, tag, tree.nodes@.len() as int),
{
    let mut r: Vec<usize> = Vec::new();
    let mut j: usize = root;
    while j < tree.nodes.len()
        invariant
            tree.wf(),
            root <= j <= tree.nodes@.len(),
            r@ == tree.tagged_within(root as int, tag, j as int),
        decreases tree.nodes@.len() - j,
    {
        if tree.is_within(j, root) && tree.nodes[j].tag == tag {
            r.push(j);
        }
        j = j + 1;
    }
    r
}

/// The children of `root` whose tag is `tag`, in document order.
pub fn get_children_by_tag(tree: &Tree, root: usize, tag: Tag) -> (r: Vec<usize>)
    requires
        tree.wf(),
        root < tree.nodes@.len(),
    ensures
        r@ == tree.tagged_among(tree.nodes@[root as int].children@, tag),
{
    let kids = &tree.nodes[root].children;
    let mut r: Vec<usize> = Vec::new();
    let mut k: usize = 0;
    assert(kids@.subrange(0, 0) =~= Seq::<usize>::empty());
    while k < kids.len()
        invariant
            tree.wf(),
            root < tree.nodes@.len(),
            *kids == tree.nodes@[root as int].children,
            0 <= k <= kids@.len(),
            r@ == tree.tagged_among(kids@.subrange(0, k as int), tag),
        decreases kids@.len() - k,
    {
        let c = kids[k];
        assert(tree.node_ok(root as int));
        assert(tree.child_ok(root as int, kids@[k as int]));
        assert(kids@.subrange(0, k + 1).drop_last() =~= kids@.subrange(0, k as int));
        if tree.nodes[c].tag == tag {
            r.push(c);
        }
        k = k + 1;
    }
    assert(kids@.subrange(0, kids@.len() as int) =~= kids@);
    r
}

/// Whether the strings read as the names.
pub open spec fn names_are(v: Seq<String>, c: Seq<Seq<char>>) -> bool {
    v.len() == c.len() && forall|k: int| 0 <= k < v.len() ==> (#[trigger] v[k])@ == c[k]
}

/// The name of node `i`: the text of its first `name` child, empty when that
/// child holds no text.
pub fn get_name(tree: &Tree, i: usize) -> (r: Result<String, SvdError>)
    requires
        tree.wf(),
        i < tree.nodes@.len(),
    ensures
        r is Ok <==> tree.name_of(i as int) is Some,
        r is Ok ==> r->Ok_0@ == tree.name_of(i as int)->Some_0,
        r is Err ==> r->Err_0 == SvdError::MissingNameElement,
{
    let named = get_children_by_tag(tree, i, Tag::Name);
    if named.len() == 0 {
        return Err(SvdError::MissingNameElement);
    }
    let c = named[0];
    proof {
        assert(tree.node_ok(i as int));
        lemma_tagged_among_in(tree, tree.nodes@[i as int].children@, Tag::Name, i as int, 0);
    }
    match &tree.nodes[c].text {
        Some(t) => Ok(t.clone()),
        None => Ok(String::new()),
    }
}

proof fn lemma_tagged_among_in(tree: &Tree, kids: Seq<usize>, tag: Tag, lo: int, k: int)
    requires
        forall|m: int| 0 <= m < kids.len() ==> lo < #[trigger] kids[m] < tree.nodes@.len(),
        0 <= k < tree.tagged_among(kids, tag).len(),
    ensures
        lo < tree.tagged_among(kids, tag)[k] < tree.nodes@.len(),
    decreases kids.len(),
{
    if kids.len() > 0 {
        let init = kids.drop_last();
        assert forall|m: int| 0 <= m < init.len() implies lo < #[trigger] init[m] < tree.nodes@.len() by {
            assert(init[m] == kids[m]);
        }
        if k < tree.tagged_among(init, tag).len() {
            lemma_tagged_among_in(tree, init, tag, lo, k);
        }
    }
}

/// The dotted-path names from the root down to node `i`: one for each
/// peripheral, cluster or register on the way, outermost first.
pub fn get_svd_parent_chain(tree: &Tree, i: usize) -> (r: Result<Vec<String>, SvdError>)
    requires
        tree.wf(),
        i < tree.nodes@.len(),
    ensures
        r is Ok <==> tree.name_chain(i as int) is Some,
        r is Ok ==> names_are(r->Ok_0@, tree.name_chain(i as int)->Some_0),
        r is Err ==> r->Err_0 == SvdError::MissingNameElement,
    decreases i,
{
    assert(tree.node_ok(i as int));
    let mut chain = match tree.nodes[i].parent {
        Some(p) => match get_svd_parent_chain(tree, p) {
            Ok(c) => c,
            Err(e) => return Err(e),
        },
        None => Vec::new(),
    };
    if tree.nodes[i].tag.is_tiered() {
        let name = get_name(tree, i)?;
        chain.push(name);
    }
    Ok(chain)
}

/// Value of `c` as a digit in base `radix` (10 or 16).
pub open spec fn digit_value(c: char, radix: int) -> Option<int> {
    if '0' <= c && c <= '9' {
        Some(c as int - '0' as int)
    } else if radix == 16 && 'a' <= c && c <= 'f' {
        Some(c as int - 'a' as int + 10)
    } else if radix == 16 && 'A' <= c && c <= 'F' {
        Some(c as int - 'A' as int + 10)
    } else {
        None
    }
}

/// Value of a string of digits in base `radix`; `None` when it is empty or
/// holds a character that is no digit.
pub open spec fn digits_value(s: Seq<char>, radix: int) -> Option<int>
    decreases s.len(),
{
    if s.len() == 0 {
        None
    } else {
        let d = digit_value(s.last(), radix);
        if d is None {
            None
        } else if s.len() == 1 {
            d
        } else {
            match digits_value(s.drop_last(), radix) {
                Some(v) => Some(v * radix + d->Some_0),
                None => None,
            }
        }
    }
}

/// Value of an offset literal: hexadecimal after `0x`, `0X` or `#`, else decimal.
pub open spec fn literal_value(s: Seq<char>) -> Option<int> {
    if s.len() >= 2 && s[0] == '0' && (s[1] == 'x' || s[1] == 'X') {
        digits_value(s.subrange(2, s.len() as int), 16)
    } else if s.len() >= 1 && s[0] == '#' {
        digits_value(s.subrange(1, s.len() as int), 16)
    } else {
        digits_value(s, 10)
    }
}

fn digit_at(c: char, radix: u64) -> (r: Option<u64>)
    requires
        radix == 10 || radix == 16,
    ensures
        r is Some <==> digit_value(c, radix as int) is Some,
        r is Some ==> r->Some_0 == digit_value(c, radix as int)->Some_0,
        r is Some ==> r->Some_0 < radix,
{
    if '0' <= c && c <= '9' {
        Some((c as u32 - '0' as u32) as u64)
    } else if radix == 16 && 'a' <= c && c <= 'f' {
        Some((c as u32 - 'a' as u32 + 10) as u64)
    } else if radix == 16 && 'A' <= c && c <= 'F' {
        Some((c as u32 - 'A' as u32 + 10) as u64)
    } else {
        None
    }
}

proof fn lemma_digits_grow(s: Seq<char>, radix: int, i: int)
    requires
        radix == 10 || radix == 16,
        1 <= i <= s.len(),
        digits_value(s, radix) is Some,
    ensures
        digits_value(s.subrange(0, i), radix) is Some,
        digits_value(s.subrange(0, i), radix)->Some_0 <= digits_value(s, radix)->Some_0,
        digits_value(s, radix)->Some_0 >= 0,
    decreases s.len(),
{
    assert(s.subrange(0, s.len() as int) =~= s);
    if s.len() > 1 {
        let init = s.drop_last();
        lemma_digits_grow(init, radix, if i < s.len() { i } else { init.len() as int });
        if i < s.len() {
            assert(init.subrange(0, i) =~= s.subrange(0, i));
        }
        let v = digits_value(init, radix)->Some_0;
        let d = digit_value(s.last(), radix)->Some_0;
        assert(v * radix >= v) by (nonlinear_arith)
            requires v >= 0, radix >= 1;
    }
}

/// Value of the digits `s[from..]` in base `radix`.
fn parse_digits(s: &str, from: usize, radix: u64) -> (r: Option<u64>)
    requires
        radix == 10 || radix == 16,
        from <= s@.len(),
    ensures
        r is Some <==> (digits_value(s@.subrange(from as int, s@.len() as int), radix as int) is Some
            && digits_value(s@.subrange(from as int, s@.len() as int), radix as int)->Some_0
            <= u64::MAX),
        r is Some ==> r->Some_0 == digits_value(
            s@.subrange(from as int, s@.len() as int),
            radix as int,
        )->Some_0,
{
    let ghost t = s@.subrange(from as int, s@.len() as int);
    let n = s.unicode_len();
    if from == n {
        return None;
    }
    let mut v: u64 = 0;
    let mut i: usize = from;
    while i < n
        invariant
            radix == 10 || radix == 16,
            from < n == s@.len(),
            t == s@.subrange(from as int, n as int),
            from <= i <= n,
            i > from ==> digits_value(t.subrange(0, i - from), radix as int) == Some(v as int),
            i == from ==> v == 0,
        decreases n - i,
    {
        let c = s.get_char(i);
        let ghost pre = t.subrange(0, i + 1 - from);
        assert(pre.drop_last() =~= t.subrange(0, i - from));
        assert(pre.last() == c);
        let d = match digit_at(c, radix) {
            Some(d) => d,
            None => {
                proof {
                    assert(digits_value(pre, radix as int) is None);
                    if digits_value(t, radix as int) is Some {
                        lemma_digits_grow(t, radix as int, i + 1 - from);
                    }
                }
                return None;
            },
        };
        let next = match v.checked_mul(radix) {
            Some(m) => m.checked_add(d),
            None => None,
        };
        match next {
            Some(w) => {
                v = w;
            },
            None => {
                proof {
                    if i > from {
                        assert(digits_value(pre, radix as int) == Some(v * radix + d));
                    }
                    if digits_value(t, radix as int) is Some {
                        lemma_digits_grow(t, radix as int, i + 1 - from);
                    }
                }
                return None;
            },
        }
        i = i + 1;
    }
    assert(t.subrange(0, n - from) =~= t);
    Some(v)
}

/// Decodes an offset literal: hexadecimal after `0x`, `0X` or `#`, decimal
/// otherwise. Fails on an empty number, a character that is no digit of its
/// base, or a value beyond `u64`.
pub fn interpret_svd_num(s: &str) -> (r: Result<u64, SvdError>)
    ensures
        r is Ok <==> (literal_value(s@) is Some && literal_value(s@)->Some_0 <= u64::MAX),
        r is Ok ==> r->Ok_0 == literal_value(s@)->Some_0,
        r is Err ==> r->Err_0 == SvdError::InvalidNumericLiteral,
{
    let n = s.unicode_len();
    let parsed = if n >= 2 && s.get_char(0) == '0' && (s.get_char(1) == 'x' || s.get_char(1) == 'X') {
        parse_digits(s, 2, 16)
    } else if n >= 1 && s.get_char(0) == '#' {
        parse_digits(s, 1, 16)
    } else {
        proof {
            assert(s@.subrange(0, s@.len() as int) =~= s@);
        }
        parse_digits(s, 0, 10)
    };
    match parsed {
        Some(v) => Ok(v),
        None => Err(SvdError::InvalidNumericLiteral),
    }
}

impl Tree {
    /// The offset of node `cl`: the literal of the first `addressOffset` at or
    /// below it, decoded.
    pub open spec fn address_offset(&self, cl: int) -> Result<int, SvdError> {
        let found = self.tagged_within(cl, Tag::AddressOffset, self.nodes@.len() as int);
        if found.len() == 0 {
            Err(SvdError::MissingAddressOffset)
        } else {
            let lit = match self.nodes@[found[0] as int].text {
                Some(t) => t@,
                None => seq![],
            };
            match literal_value(lit) {
                Some(v) => if v <= u64::MAX {
                    Ok(v)
                } else {
                    Err(SvdError::InvalidNumericLiteral)
                },
                None => Err(SvdError::InvalidNumericLiteral),
            }
        }
    }
}

pub(crate) proof fn lemma_tagged_within_in(tree: &Tree, root: int, tag: Tag, hi: int, k: int)
    requires
        0 <= k < tree.tagged_within(root, tag, hi).len(),
        0 <= root,
        hi <= usize::MAX,
    ensures
        root <= tree.tagged_within(root, tag, hi)[k] < hi,
    decreases hi - root,
{
    if hi > root {
        if k < tree.tagged_within(root, tag, hi - 1).len() {
            lemma_tagged_within_in(tree, root, tag, hi - 1, k);
        }
    }
}

proof fn lemma_literal_nonneg(s: Seq<char>)
    ensures
        literal_value(s) is Some ==> literal_value(s)->Some_0 >= 0,
{
    if s.len() >= 2 && s[0] == '0' && (s[1] == 'x' || s[1] == 'X') {
        let t = s.subrange(2, s.len() as int);
        if digits_value(t, 16) is Some {
            lemma_digits_grow(t, 16, t.len() as int);
        }
    } else if s.len() >= 1 && s[0] == '#' {
        let t = s.subrange(1, s.len() as int);
        if digits_value(t, 16) is Some {
            lemma_digits_grow(t, 16, t.len() as int);
        }
    } else if digits_value(s, 10) is Some {
        lemma_digits_grow(s, 10, s.len() as int);
    }
}

/// The decoded offset of cluster `cl`, from the first `addressOffset` at or below it.
pub fn get_address_offset(tree: &Tree, cl: usize) -> (r: Result<u64, SvdError>)
    requires
        tree.wf(),
        cl < tree.nodes@.len(),
    ensures
        match tree.address_offset(cl as int) {
            Ok(v) => r == Ok::<u64, SvdError>(v as u64),
            Err(e) => r == Err::<u64, SvdError>(e),
        },
        tree.address_offset(cl as int) is Ok ==> tree.address_offset(cl as int)->Ok_0 >= 0,
{
    let found = get_descendants_by_tag(tree, cl, Tag::AddressOffset);
    if found.len() == 0 {
        return Err(SvdError::MissingAddressOffset);
    }
    let n = tree.nodes.len();
    proof {
        lemma_tagged_within_in(tree, cl as int, Tag::AddressOffset, n as int, 0);
    }
    match &tree.nodes[found[0]].text {
        Some(t) => {
            proof {
                lemma_literal_nonneg(t@);
            }
            interpret_svd_num(t.as_str())
        },
        None => Err(SvdError::InvalidNumericLiteral),
    }
}

proof fn lemma_tagged_among_sorted(tree: &Tree, kids: Seq<usize>, tag: Tag)
    requires
        forall|m: int| 0 <= m < kids.len() ==> #[trigger] kids[m] < tree.nodes@.len(),
        forall|k: int, m: int|
            #![trigger kids[k], kids[m]]
            0 <= k < m < kids.len() ==> tree.nodes@[kids[k] as int].range.end
                <= tree.nodes@[kids[m] as int].range.start,
    ensures
        forall|a: int|
            0 <= a < tree.tagged_among(kids, tag).len() ==> kids.contains(
                #[trigger] tree.tagged_among(kids, tag)[a],
            ),
        forall|a: int, b: int|
            #![trigger tree.tagged_among(kids, tag)[a], tree.tagged_among(kids, tag)[b]]
            0 <= a < b < tree.tagged_among(kids, tag).len() ==> tree.nodes@[tree.tagged_among(
                kids,
                tag,
            )[a] as int].range.end <= tree.nodes@[tree.tagged_among(kids, tag)[b] as int].range.start,
    decreases kids.len(),
{
    if kids.len() > 0 {
        let init = kids.drop_last();
        assert forall|m: int| 0 <= m < init.len() implies #[trigger] init[m] < tree.nodes@.len() by {
            assert(init[m] == kids[m]);
        }
        assert forall|k: int, m: int|
            #![trigger init[k], init[m]]
            0 <= k < m < init.len() implies tree.nodes@[init[k] as int].range.end
                <= tree.nodes@[init[m] as int].range.start by {
            assert(init[k] == kids[k] && init[m] == kids[m]);
        }
        lemma_tagged_among_sorted(tree, init, tag);
        let r = tree.tagged_among(init, tag);
        let t = tree.tagged_among(kids, tag);
        assert forall|a: int| 0 <= a < r.len() implies kids.contains(#[trigger] r[a]) by {
            assert(init.contains(r[a]));
            let j = choose|j: int| 0 <= j < init.len() && init[j] == r[a];
            assert(kids[j] == r[a]);
        }
        if tree.nodes@[kids.last() as int].tag == tag {
            assert(kids[kids.len() - 1] == kids.last());
            assert forall|a: int, b: int|
                #![trigger t[a], t[b]]
                0 <= a < b < t.len() implies tree.nodes@[t[a] as int].range.end
                    <= tree.nodes@[t[b] as int].range.start by {
                if b == t.len() - 1 {
                    assert(init.contains(r[a]));
                    let j = choose|j: int| 0 <= j < init.len() && init[j] == r[a];
                    assert(kids[j] == r[a]);
                    assert(tree.nodes@[kids[j] as int].range.end
                        <= tree.nodes@[kids[kids.len() - 1] as int].range.start);
                } else {
                    assert(t[a] == r[a] && t[b] == r[b]);
                }
            }
            assert forall|a: int| 0 <= a < t.len() implies kids.contains(#[trigger] t[a]) by {
                if a == t.len() - 1 {
                    assert(kids[kids.len() - 1] == t[a]);
                } else {
                    assert(t[a] == r[a]);
                }
            }
        }
    }
}

/// Whether `op` removes node `cl` whole and puts back, in order, the bytes
/// of its register children.
pub open spec fn flattens(tree: &Tree, cl: int, op: ReplaceRange) -> bool {
    let regs = tree.tagged_among(tree.nodes@[cl].children@, Tag::Register);
    &&& op.remove_range == tree.nodes@[cl].range
    &&& op.add_ranges@.len() == regs.len()
    &&& forall|k: int| 0 <= k < regs.len() ==> #[trigger] op.add_ranges@[k] == tree.nodes@[regs[k] as int].range
}

/// Plans the removal of cluster `cl` with its register children kept in
/// place. Only a cluster at offset zero can go, as its registers keep their
/// addresses only then.
pub fn create_jenga_op_for_cluster(tree: &Tree, cl: usize) -> (r: Result<ReplaceRange, SvdError>)
    requires
        tree.wf(),
        cl < tree.nodes@.len(),
    ensures
        r is Ok <==> tree.address_offset(cl as int) == Ok::<int, SvdError>(0),
        r is Ok ==> flattens(tree, cl as int, r->Ok_0),
        r is Ok ==> nested_plan(r->Ok_0),
        r is Ok ==> forall|n: int| r->Ok_0.remove_range.end <= n ==> #[trigger] batch_ok(seq![r->Ok_0], n),
        r is Err ==> r->Err_0 == match tree.address_offset(cl as int) {
            Ok(_) => SvdError::UnsupportedClusterOffset,
            Err(e) => e,
        },
{
    let offset = get_address_offset(tree, cl)?;
    if offset != 0 {
        return Err(SvdError::UnsupportedClusterOffset);
    }
    let regs = get_children_by_tag(tree, cl, Tag::Register);
    let mut add_ranges: Vec<std::ops::Range<usize>> = Vec::new();
    let mut k: usize = 0;
    while k < regs.len()
        invariant
            tree.wf(),
            cl < tree.nodes@.len(),
            regs@ == tree.tagged_among(tree.nodes@[cl as int].children@, Tag::Register),
            0 <= k <= regs@.len(),
            add_ranges@.len() == k,
            forall|m: int| 0 <= m < k ==> #[trigger] add_ranges@[m] == tree.nodes@[regs@[m] as int].range,
        decreases regs@.len() - k,
    {
        proof {
            assert(tree.node_ok(cl as int));
            lemma_tagged_among_in(tree, tree.nodes@[cl as int].children@, Tag::Register, cl as int, k as int);
        }
        let rr = &tree.nodes[regs[k]].range;
        add_ranges.push(std::ops::Range { start: rr.start, end: rr.end });
        k = k + 1;
    }
    let cr = &tree.nodes[cl].range;
    let op = ReplaceRange { remove_range: std::ops::Range { start: cr.start, end: cr.end }, add_ranges };
    proof {
        let kids = tree.nodes@[cl as int].children@;
        assert(tree.node_ok(cl as int));
        lemma_tagged_among_sorted(tree, kids, Tag::Register);
        assert forall|k: int|
            0 <= k < op.add_ranges@.len() implies op.remove_range.start <= (#[trigger] op.add_ranges@[k]).start
                && op.add_ranges@[k].start <= op.add_ranges@[k].end && op.add_ranges@[k].end
                <= op.remove_range.end by {
            assert(kids.contains(regs@[k]));
            let j = choose|j: int| 0 <= j < kids.len() && kids[j] == regs@[k];
            assert(tree.child_ok(cl as int, kids[j]));
        }
        assert forall|k: int, m: int|
            0 <= k < m < op.add_ranges@.len() implies (#[trigger] op.add_ranges@[k]).end
                <= (#[trigger] op.add_ranges@[m]).start by {
            assert(tree.nodes@[regs@[k] as int].range.end <= tree.nodes@[regs@[m] as int].range.start);
        }
        assert(nested_plan(op));
        assert forall|n: int| op.remove_range.end <= n implies #[trigger] batch_ok(seq![op], n) by {
            law_nested_plan_is_batch(op, n);
        }
    }
    Ok(op)
}

impl Tree {
    /// Takes the nodes as a tree when they are well placed (see `node_ok`);
    /// `None` otherwise.
    pub fn from_nodes(nodes: Vec<Node>) -> (r: Option<Tree>)
        ensures
            r is Some <==> (Tree { nodes }).wf(),
            r is Some ==> r->Some_0.nodes == nodes,
    {
        let ghost t = Tree { nodes };
        let n = nodes.len();
        let mut i: usize = 0;
        while i < n
            invariant
                n == nodes@.len(),
                t == (Tree { nodes }),
                0 <= i <= n,
                forall|m: int| 0 <= m < i ==> #[trigger] t.node_ok(m),
            decreases n - i,
        {
            let node = &nodes[i];
            let ok_parent = match node.parent {
                Some(p) => p < i,
                None => true,
            };
            if !ok_parent || node.range.start > node.range.end {
                assert(!t.wf()) by {
                    if t.wf() {
                        assert(t.node_ok(i as int));
                    }
                }
                return None;
            }
            let mut k: usize = 0;
            while k < node.children.len()
                invariant
                    n == nodes@.len(),
                    t == (Tree { nodes }),
                    i < n,
                    *node == nodes@[i as int],
                    node.parent is Some ==> node.parent->Some_0 < i,
                    node.range.start <= node.range.end,
                    0 <= k <= node.children@.len(),
                    forall|q: int| 0 <= q < k ==> t.child_ok(i as int, #[trigger] node.children@[q]),
                    forall|q: int, w: int|
                        #![trigger node.children@[q], node.children@[w]]
                        0 <= q < w < k ==> nodes@[node.children@[q] as int].range.end
                            <= nodes@[node.children@[w] as int].range.start,
                    forall|m: int| 0 <= m < i ==> #[trigger] t.node_ok(m),
                decreases node.children@.len() - k,
            {
                let c = node.children[k];
                let fits = i < c && c < n && {
                    let child = &nodes[c];
                    let parent_ok = match child.parent {
                        Some(p) => p == i,
                        None => false,
                    };
                    parent_ok && child.range.start <= child.range.end && node.range.start
                        <= child.range.start && child.range.end <= node.range.end
                };
                proof {
                    if k > 0 {
                        assert(t.child_ok(i as int, node.children@[k - 1]));
                    }
                }
                let ordered = fits && (k == 0 || nodes[node.children[k - 1]].range.end <= nodes[c].range.start);
                if !fits || !ordered {
                    assert(!t.wf()) by {
                        if t.wf() {
                            assert(t.node_ok(i as int));
                            assert(t.child_ok(i as int, node.children@[k as int]));
                            if k > 0 {
                                assert(t.child_ok(i as int, node.children@[k - 1]));
                                assert(nodes@[node.children@[k - 1] as int].range.end
                                    <= nodes@[node.children@[k as int] as int].range.start);
                            }
                        }
                    }
                    return None;
                }
                proof {
                    assert(t.child_ok(i as int, node.children@[k as int]));
                    if k > 0 {
                        assert(t.child_ok(i as int, node.children@[k - 1]));
                    }
                    assert forall|q: int, w: int|
                        #![trigger node.children@[q], node.children@[w]]
                        0 <= q < w < k + 1 implies nodes@[node.children@[q] as int].range.end
                            <= nodes@[node.children@[w] as int].range.start by {
                        if w == k && q < k - 1 {
                            assert(nodes@[node.children@[q] as int].range.end
                                <= nodes@[node.children@[k - 1] as int].range.start);
                            assert(t.child_ok(i as int, node.children@[k - 1]));
                        }
                    }
                }
                k = k + 1;
            }
            assert(t.node_ok(i as int));
            i = i + 1;
        }
        Some(Tree { nodes })
    }
}

} // verus!

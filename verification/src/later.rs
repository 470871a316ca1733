//! Deferred bindings ("laters") of a component's imports: the host grammar that names
//! the instance providing an import, import paths, and the walk that turns a
//! component's type tree into the list of function imports to bind.
use vstd::prelude::*;
use crate::text::{chars_of, join_strings, owned, push_str, seq_join, string_of_range, views_of};

verus! {

/// Where an import is provided.
#[derive(Debug, Clone, Copy, PartialEq, Eq, Structural)]
pub enum HostType {
    /// A component instance held by the manager.
    Planet,
    /// A sub-process spoken to over IPC.
    Satellite,
}

/// The provider of an import: its kind and its name.
#[derive(Debug, Clone)]
pub struct Host(HostType, String);

/// Why a deferred binding could not be made.
#[derive(Debug, Clone)]
pub enum LaterError {
    /// The import path is empty, so no instance is named.
    MissingInstanceName,
    /// The first path element does not follow the host grammar.
    HostParse(String),
    /// No instance of that name has been stored.
    InstanceNotFound(String),
    /// No export of that name exists.
    ItemNotFound(String),
    /// The binding was already made.
    AlreadyExists(String),
}

impl LaterError {
    /// The human-readable message of the error.
    pub fn message(&self) -> (m: String)
        ensures
            m@ == self.message_spec(),
    {
        match self {
            LaterError::MissingInstanceName => owned("Requires instance name"),
            LaterError::HostParse(s) => {
                let mut m = owned("Can not parse '");
                push_str(&mut m, s.as_str());
                push_str(&mut m, "' into Host");
                m
            },
            LaterError::InstanceNotFound(s) => {
                let mut m = owned("Instance:");
                push_str(&mut m, s.as_str());
                push_str(&mut m, " does not exist.");
                m
            },
            LaterError::ItemNotFound(s) => {
                let mut m = owned("Item:");
                push_str(&mut m, s.as_str());
                push_str(&mut m, " does not exist.");
                m
            },
            LaterError::AlreadyExists(s) => {
                let mut m = owned("Item:");
                push_str(&mut m, s.as_str());
                push_str(&mut m, " already exist.");
                m
            },
        }
    }

    /// The characters of the message of the error.
    pub open spec fn message_spec(&self) -> Seq<char> {
        match self {
            LaterError::MissingInstanceName => "Requires instance name"@,
            LaterError::HostParse(s) => "Can not parse '"@ + s@ + "' into Host"@,
            LaterError::InstanceNotFound(s) => "Instance:"@ + s@ + " does not exist."@,
            LaterError::ItemNotFound(s) => "Item:"@ + s@ + " does not exist."@,
            LaterError::AlreadyExists(s) => "Item:"@ + s@ + " already exist."@,
        }
    }
}

/// `c` separates a host name from what follows it.
pub open spec fn is_sep(c: char) -> bool {
    c == ':' || c == '/'
}

/// `i` is the position of the first `:` of `s`.
pub open spec fn is_first_colon(s: Seq<char>, i: int) -> bool {
    &&& 0 <= i < s.len()
    &&& s[i] == ':'
    &&& forall|j: int| 0 <= j < i ==> s[j] != ':'
}

/// `i` is the position of the first separator of `s`.
pub open spec fn is_first_sep(s: Seq<char>, i: int) -> bool {
    &&& 0 <= i < s.len()
    &&& is_sep(s[i])
    &&& forall|j: int| 0 <= j < i ==> !is_sep(s[j])
}

/// Complete `take_until(":")`: `(rest, taken)` where `taken` is everything before the
/// first `:` and `rest` starts at it; `None` when `s` holds no `:`.
pub open spec fn take_until_colon(s: Seq<char>) -> Option<(Seq<char>, Seq<char>)> {
    if exists|i: int| is_first_colon(s, i) {
        let i = choose|i: int| is_first_colon(s, i);
        Some((s.skip(i), s.take(i)))
    } else {
        None
    }
}

/// Streaming `take_till(is_sep)`: `(rest, taken)` where `taken` is everything before the
/// first separator; `None` (more input needed) when `s` holds no separator.
pub open spec fn take_till_sep(s: Seq<char>) -> Option<(Seq<char>, Seq<char>)> {
    if exists|i: int| is_first_sep(s, i) {
        let i = choose|i: int| is_first_sep(s, i);
        Some((s.skip(i), s.take(i)))
    } else {
        None
    }
}

/// `one_of(":/")`: consumes one leading separator.
pub open spec fn one_of_sep(s: Seq<char>) -> Option<Seq<char>> {
    if s.len() > 0 && is_sep(s[0]) {
        Some(s.drop_first())
    } else {
        None
    }
}

/// The host kind that a word names.
pub open spec fn host_type_of(word: Seq<char>) -> Option<HostType> {
    if word == "planet"@ {
        Some(HostType::Planet)
    } else if word == "satellite"@ {
        Some(HostType::Satellite)
    } else {
        None
    }
}

/// The host grammar: the host kind is the word before the first `:`; the name parser
/// then takes everything up to the next separator from what remains, and finally
/// consumes one separator from the front of the taken text.
pub open spec fn host_parse(s: Seq<char>) -> Option<(HostType, Seq<char>)> {
    match take_until_colon(s) {
        None => None,
        Some((rest, word)) => match host_type_of(word) {
            None => None,
            Some(ty) => match take_till_sep(rest) {
                None => None,
                Some((_rest2, taken)) => match one_of_sep(taken) {
                    None => None,
                    Some(name) => Some((ty, name)),
                },
            },
        },
    }
}

proof fn lemma_first_colon_unique(s: Seq<char>, i: int, k: int)
    requires
        is_first_colon(s, i),
        is_first_colon(s, k),
    ensures
        i == k,
{
    if i < k {
        assert(s[i] != ':');
    } else if k < i {
        assert(s[k] != ':');
    }
}

proof fn lemma_first_sep_unique(s: Seq<char>, i: int, k: int)
    requires
        is_first_sep(s, i),
        is_first_sep(s, k),
    ensures
        i == k,
{
    if i < k {
        assert(!is_sep(s[i]));
    } else if k < i {
        assert(!is_sep(s[k]));
    }
}

/// The host grammar accepts no input at all: the text taken by the name parser holds no
/// separator, so the separator that is then required at its front is never there.
pub proof fn lemma_host_parse_rejects_every_input(s: Seq<char>)
    ensures
        host_parse(s) is None,
{
    if let Some((rest, word)) = take_until_colon(s) {
        if let Some(ty) = host_type_of(word) {
            if let Some((rest2, taken)) = take_till_sep(rest) {
                let i = choose|i: int| is_first_sep(rest, i);
                assert(taken == rest.take(i));
                if taken.len() > 0 {
                    assert(taken[0] == rest[0]);
                    assert(!is_sep(rest[0]));
                }
            }
        }
    }
}

fn first_colon(cs: &Vec<char>) -> (r: Option<usize>)
    ensures
        match r {
            Some(i) => is_first_colon(cs@, i as int),
            None => !exists|i: int| is_first_colon(cs@, i),
        },
{
    let mut i: usize = 0;
    while i < cs.len()
        invariant
            i <= cs@.len(),
            forall|j: int| 0 <= j < i ==> cs@[j] != ':',
        decreases cs@.len() - i,
    {
        if cs[i] == ':' {
            return Some(i);
        }
        i = i + 1;
    }
    None
}

fn first_sep_from(cs: &Vec<char>, start: usize) -> (r: Option<usize>)
    requires
        start <= cs@.len(),
    ensures
        match r {
            Some(k) => start <= k && is_first_sep(cs@.skip(start as int), k - start),
            None => !exists|i: int| is_first_sep(cs@.skip(start as int), i),
        },
{
    let ghost t = cs@.skip(start as int);
    let mut k: usize = start;
    while k < cs.len()
        invariant
            start <= k <= cs@.len(),
            t == cs@.skip(start as int),
            forall|j: int| 0 <= j < k - start ==> !is_sep(t[j]),
        decreases cs@.len() - k,
    {
        let c = cs[k];
        if c == ':' || c == '/' {
            assert(t[k - start] == c);
            return Some(k);
        }
        assert(t[k - start] == c);
        k = k + 1;
    }
    None
}

fn is_word(cs: &Vec<char>, end: usize, word: &str) -> (b: bool)
    requires
        end <= cs@.len(),
    ensures
        b == (cs@.take(end as int) == word@),
{
    let w = chars_of(word);
    if w.len() != end {
        return false;
    }
    let mut i: usize = 0;
    while i < end
        invariant
            end <= cs@.len(),
            w@ == word@,
            w@.len() == end,
            i <= end,
            forall|j: int| 0 <= j < i ==> cs@[j] == w@[j],
        decreases end - i,
    {
        if cs[i] != w[i] {
            assert(cs@.take(end as int)[i as int] != word@[i as int]);
            return false;
        }
        i = i + 1;
    }
    assert(cs@.take(end as int) =~= word@);
    true
}

impl Host {
    /// The kind of the host.
    pub closed spec fn kind(&self) -> HostType {
        self.0
    }

    /// The name of the host.
    pub closed spec fn name_spec(&self) -> Seq<char> {
        self.1@
    }

    /// A host of the given kind and name.
    pub fn new(ty: HostType, name: String) -> (h: Self)
        ensures
            h.kind() == ty,
            h.name_spec() == name@,
    {
        Host(ty, name)
    }

    /// Parses a host following the host grammar (see [`host_parse`]); any text that the
    /// grammar rejects gives [`LaterError::HostParse`] holding the input.
    pub fn from_str(input: &str) -> (r: Result<Self, LaterError>)
        ensures
            match host_parse(input@) {
                Some((ty, name)) => r matches Ok(h) && h.kind() == ty && h.name_spec() == name,
                None => r matches Err(LaterError::HostParse(m)) && m@ == input@,
            },
    {
        let cs = chars_of(input);
        let ghost s = cs@;
        let fail = LaterError::HostParse(owned(input));
        let i = match first_colon(&cs) {
            None => {
                return Err(fail);
            },
            Some(i) => i,
        };
        proof {
            let c = choose|c: int| is_first_colon(s, c);
            lemma_first_colon_unique(s, i as int, c);
        }
        let ty = if is_word(&cs, i, "planet") {
            HostType::Planet
        } else if is_word(&cs, i, "satellite") {
            HostType::Satellite
        } else {
            return Err(fail);
        };
        let ghost rest = s.skip(i as int);
        let k = match first_sep_from(&cs, i) {
            None => {
                return Err(fail);
            },
            Some(k) => k,
        };
        proof {
            let c = choose|c: int| is_first_sep(rest, c);
            lemma_first_sep_unique(rest, (k - i) as int, c);
            assert(rest.take(k - i) =~= s.subrange(i as int, k as int));
        }
        if k > i && (cs[i] == ':' || cs[i] == '/') {
            let name = string_of_range(&cs, i + 1, k);
            assert(s.subrange(i as int, k as int).drop_first() =~= s.subrange(i + 1, k as int));
            Ok(Host(ty, name))
        } else {
            Err(fail)
        }
    }

    /// The kind of the host.
    pub fn ty(&self) -> (t: &HostType)
        ensures
            *t == self.kind(),
    {
        &self.0
    }

    /// The name of the host.
    pub fn name(&self) -> (n: &String)
        ensures
            n@ == self.name_spec(),
    {
        &self.1
    }
}

/// The sequence of names leading to an import, outermost first.
#[derive(Clone, Debug)]
pub struct Path(Vec<String>);

impl View for Path {
    type V = Seq<String>;

    closed spec fn view(&self) -> Seq<String> {
        self.0@
    }
}

impl Path {
    /// The empty path.
    pub fn new() -> (p: Self)
        ensures
            p@ == Seq::<String>::empty(),
    {
        Path(Vec::new())
    }

    /// The names of the path.
    pub fn take(self) -> (v: Vec<String>)
        ensures
            v@ == self@,
    {
        self.0
    }

}

impl std::ops::Deref for Path {
    type Target = Vec<String>;

    fn deref(&self) -> (v: &Vec<String>)
        ensures
            v@ == self@,
    {
        &self.0
    }
}

impl From<Vec<String>> for Path {
    fn from(value: Vec<String>) -> (p: Self)
        ensures
            p@ == value@,
    {
        Path(value)
    }
}

impl vstd::std_specs::convert::FromSpecImpl<Vec<String>> for Path {
    open spec fn obeys_from_spec() -> bool {
        true
    }

    closed spec fn from_spec(v: Vec<String>) -> Self {
        Path(v)
    }
}

/// `vec` (or nothing) followed by `element`.
pub fn extend_add<T>(vec: Option<Vec<T>>, element: T) -> (r: Vec<T>)
    ensures
        r@ == match vec {
            Some(v) => v@.push(element),
            None => seq![element],
        },
{
    if let Some(vec) = vec {
        let mut vec = vec;
        let mut new = Vec::with_capacity(vec.len().saturating_add(1));
        new.append(&mut vec);
        new.push(element);
        new
    } else {
        let mut new = Vec::new();
        new.push(element);
        new
    }
}

/// What a component exports or imports under one name: the part of a component's type
/// that deferred bindings are made from.
#[derive(Debug)]
pub enum ComponentItem {
    /// An instance, with the items it exports.
    ComponentInstance(Vec<(String, ComponentItem)>),
    /// A nested component, with the items it exports.
    Component(Vec<(String, ComponentItem)>),
    /// A core function.
    CoreFunc,
    /// A component function.
    ComponentFunc,
    /// Anything else (modules, types, resources): no binding is made for it.
    Other,
}

/// `name` belongs to the WASI interfaces, which are provided by the linker itself.
pub open spec fn is_wasi_name(name: Seq<char>) -> bool {
    name.len() >= 5 && name.take(5) == "wasi:"@
}

/// The paths of the function imports found under `items`, in order, each path starting
/// with `prefix`.
pub open spec fn later_paths(prefix: Seq<String>, items: Seq<(String, ComponentItem)>) -> Seq<
    Seq<String>,
>
    decreases items, 0int,
{
    if items.len() == 0 {
        seq![]
    } else {
        later_paths(prefix, items.drop_last()) + item_paths(
            prefix,
            items.last().0,
            items.last().1,
        )
    }
}

/// The paths of the function imports found under one named item.
pub open spec fn item_paths(prefix: Seq<String>, name: String, item: ComponentItem) -> Seq<
    Seq<String>,
>
    decreases item, 1int,
{
    if is_wasi_name(name@) {
        seq![]
    } else {
        match item {
            ComponentItem::ComponentInstance(v) => later_paths(prefix.push(name), v@),
            ComponentItem::Component(v) => later_paths(prefix.push(name), v@),
            ComponentItem::CoreFunc => seq![prefix.push(name)],
            ComponentItem::ComponentFunc => seq![prefix.push(name)],
            ComponentItem::Other => seq![],
        }
    }
}

/// `path` extends `prefix` by at least one name, none of which belongs to WASI.
pub open spec fn extends_without_wasi(prefix: Seq<String>, path: Seq<String>) -> bool {
    &&& path.len() > prefix.len()
    &&& path.take(prefix.len() as int) == prefix
    &&& forall|k: int| prefix.len() <= k < path.len() ==> !is_wasi_name(#[trigger] path[k]@)
}

proof fn lemma_extends_push(prefix: Seq<String>, name: String, path: Seq<String>)
    requires
        !is_wasi_name(name@),
        extends_without_wasi(prefix.push(name), path) || path == prefix.push(name),
    ensures
        extends_without_wasi(prefix, path),
{
    let p1 = prefix.push(name);
    assert(path.take(p1.len() as int) == p1 ==> path.take(prefix.len() as int) =~= prefix) by {
        if path.take(p1.len() as int) == p1 {
            assert forall|k: int| 0 <= k < prefix.len() implies path.take(prefix.len() as int)[k] == prefix[k] by {
                assert(path.take(p1.len() as int)[k] == p1[k]);
            }
        }
    }
    if path == p1 {
        assert(path.take(prefix.len() as int) =~= prefix);
    } else {
        assert(path.take(p1.len() as int) == p1);
        assert(path[prefix.len() as int] == path.take(p1.len() as int)[prefix.len() as int]);
    }
}

/// Every import path found under `items` is `prefix` followed by at least one name, and
/// none of the names that follow `prefix` belongs to WASI.
pub proof fn lemma_later_paths_extend_prefix(prefix: Seq<String>, items: Seq<(String, ComponentItem)>)
    ensures
        forall|j: int|
            0 <= j < later_paths(prefix, items).len() ==> extends_without_wasi(
                prefix,
                #[trigger] later_paths(prefix, items)[j],
            ),
    decreases items, 0int,
{
    if items.len() > 0 {
        lemma_later_paths_extend_prefix(prefix, items.drop_last());
        lemma_item_paths_extend_prefix(prefix, items.last().0, items.last().1);
        let a = later_paths(prefix, items.drop_last());
        let b = item_paths(prefix, items.last().0, items.last().1);
        assert forall|j: int| 0 <= j < (a + b).len() implies extends_without_wasi(prefix, #[trigger] (a + b)[j]) by {
            if j < a.len() {
                assert((a + b)[j] == a[j]);
            } else {
                assert((a + b)[j] == b[j - a.len()]);
            }
        }
    }
}

/// Every import path found under one named item is `prefix` followed by at least one
/// name, none of which belongs to WASI.
pub proof fn lemma_item_paths_extend_prefix(prefix: Seq<String>, name: String, item: ComponentItem)
    ensures
        forall|j: int|
            0 <= j < item_paths(prefix, name, item).len() ==> extends_without_wasi(
                prefix,
                #[trigger] item_paths(prefix, name, item)[j],
            ),
    decreases item, 1int,
{
    if !is_wasi_name(name@) {
        let p1 = prefix.push(name);
        match item {
            ComponentItem::ComponentInstance(v) => {
                lemma_later_paths_extend_prefix(p1, v@);
                assert forall|j: int| 0 <= j < later_paths(p1, v@).len() implies extends_without_wasi(prefix, #[trigger] later_paths(p1, v@)[j]) by {
                    lemma_extends_push(prefix, name, later_paths(p1, v@)[j]);
                }
            },
            ComponentItem::Component(v) => {
                lemma_later_paths_extend_prefix(p1, v@);
                assert forall|j: int| 0 <= j < later_paths(p1, v@).len() implies extends_without_wasi(prefix, #[trigger] later_paths(p1, v@)[j]) by {
                    lemma_extends_push(prefix, name, later_paths(p1, v@)[j]);
                }
            },
            ComponentItem::CoreFunc => {
                lemma_extends_push(prefix, name, p1);
            },
            ComponentItem::ComponentFunc => {
                lemma_extends_push(prefix, name, p1);
            },
            ComponentItem::Other => {},
        }
    }
}

/// Each of `paths` with `p` in front.
pub open spec fn prefixed(p: Seq<String>, paths: Seq<Seq<String>>) -> Seq<Seq<String>> {
    paths.map_values(|x: Seq<String>| p + x)
}

proof fn lemma_later_paths_shift(p: Seq<String>, q: Seq<String>, items: Seq<(String, ComponentItem)>)
    ensures
        later_paths(p + q, items) == prefixed(p, later_paths(q, items)),
    decreases items, 0int,
{
    if items.len() > 0 {
        lemma_later_paths_shift(p, q, items.drop_last());
        lemma_item_paths_shift(p, q, items.last().0, items.last().1);
        let a = later_paths(q, items.drop_last());
        let b = item_paths(q, items.last().0, items.last().1);
        assert(prefixed(p, a + b) =~= prefixed(p, a) + prefixed(p, b));
    } else {
        assert(prefixed(p, later_paths(q, items)) =~= Seq::<Seq<String>>::empty());
    }
}

proof fn lemma_item_paths_shift(p: Seq<String>, q: Seq<String>, name: String, item: ComponentItem)
    ensures
        item_paths(p + q, name, item) == prefixed(p, item_paths(q, name, item)),
    decreases item, 1int,
{
    let pq = (p + q).push(name);
    assert(pq =~= p + q.push(name));
    if is_wasi_name(name@) {
        assert(prefixed(p, item_paths(q, name, item)) =~= Seq::<Seq<String>>::empty());
    } else {
        match item {
            ComponentItem::ComponentInstance(v) => {
                lemma_later_paths_shift(p, q.push(name), v@);
            },
            ComponentItem::Component(v) => {
                lemma_later_paths_shift(p, q.push(name), v@);
            },
            ComponentItem::CoreFunc => {
                assert(prefixed(p, seq![q.push(name)]) =~= seq![pq]);
            },
            ComponentItem::ComponentFunc => {
                assert(prefixed(p, seq![q.push(name)]) =~= seq![pq]);
            },
            ComponentItem::Other => {
                assert(prefixed(p, item_paths(q, name, item)) =~= Seq::<Seq<String>>::empty());
            },
        }
    }
}

/// A leading path only prefixes what is found: the import paths found under `items`
/// with leading path `p` are, element for element and in order, the paths found with no
/// leading path, each with `p` in front. With `p` empty the two are the same.
pub proof fn lemma_leading_path_prefixes(p: Seq<String>, items: Seq<(String, ComponentItem)>)
    ensures
        later_paths(p, items) == prefixed(p, later_paths(Seq::<String>::empty(), items)),
        p.len() == 0 ==> later_paths(p, items) == later_paths(Seq::<String>::empty(), items),
{
    lemma_later_paths_shift(p, Seq::<String>::empty(), items);
    assert(p + Seq::<String>::empty() =~= p);
    if p.len() == 0 {
        assert(p =~= Seq::<String>::empty());
    }
}

/// Every import found under any item of a list is kept, in the order of the items:
/// the paths found under `a + b` are those found under `a` followed by those found
/// under `b`.
pub proof fn lemma_later_paths_concat(prefix: Seq<String>, a: Seq<(String, ComponentItem)>, b: Seq<(String, ComponentItem)>)
    ensures
        later_paths(prefix, a + b) == later_paths(prefix, a) + later_paths(prefix, b),
    decreases b.len(),
{
    if b.len() == 0 {
        assert(a + b =~= a);
        assert(later_paths(prefix, a) + later_paths(prefix, b) =~= later_paths(prefix, a));
    } else {
        assert((a + b).drop_last() =~= a + b.drop_last());
        assert((a + b).last() == b.last());
        lemma_later_paths_concat(prefix, a, b.drop_last());
        let la = later_paths(prefix, a);
        let lb = later_paths(prefix, b.drop_last());
        let it = item_paths(prefix, b.last().0, b.last().1);
        assert(la + lb + it =~= la + (lb + it));
    }
}

/// What one item contributes, alone in a list: nothing when its name starts with
/// `wasi:`; otherwise a function gives one path, the prefix followed by its name; an
/// instance or a component gives the paths found inside it, each preceded by the prefix
/// and its name; any other item gives nothing.
pub proof fn lemma_one_item_paths(prefix: Seq<String>, name: String, item: ComponentItem)
    ensures
        ({
            let found = later_paths(prefix, seq![(name, item)]);
            if name@.len() >= 5 && name@.take(5) == "wasi:"@ {
                found == Seq::<Seq<String>>::empty()
            } else {
                match item {
                    ComponentItem::CoreFunc => found == seq![prefix.push(name)],
                    ComponentItem::ComponentFunc => found == seq![prefix.push(name)],
                    ComponentItem::ComponentInstance(v) => found == prefixed(
                        prefix.push(name),
                        later_paths(Seq::<String>::empty(), v@),
                    ),
                    ComponentItem::Component(v) => found == prefixed(
                        prefix.push(name),
                        later_paths(Seq::<String>::empty(), v@),
                    ),
                    ComponentItem::Other => found == Seq::<Seq<String>>::empty(),
                }
            }
        }),
{
    let one = seq![(name, item)];
    assert(one.drop_last() =~= Seq::<(String, ComponentItem)>::empty());
    assert(one.last() == (name, item));
    let ip = item_paths(prefix, name, item);
    assert(later_paths(prefix, Seq::<(String, ComponentItem)>::empty()) =~= Seq::<Seq<String>>::empty());
    assert(later_paths(prefix, one) == later_paths(prefix, one.drop_last()) + ip);
    assert(Seq::<Seq<String>>::empty() + ip =~= ip);
    assert(later_paths(prefix, one) == ip);
    match item {
        ComponentItem::ComponentInstance(v) => {
            lemma_leading_path_prefixes(prefix.push(name), v@);
        },
        ComponentItem::Component(v) => {
            lemma_leading_path_prefixes(prefix.push(name), v@);
        },
        _ => {},
    }
}

/// A function import to be bound later, named by its path.
#[derive(Debug, Clone)]
pub struct LaterFunc {
    /// Where the function is found.
    pub path: Path,
}

/// A deferred binding.
#[derive(Debug, Clone)]
pub enum CommonLater {
    /// A function import.
    Func(LaterFunc),
}

impl CommonLater {
    /// The path of the binding.
    pub open spec fn path_spec(&self) -> Seq<String> {
        match self {
            CommonLater::Func(f) => f.path@,
        }
    }
}

/// The paths of a list of bindings.
pub open spec fn paths_of(ls: Seq<CommonLater>) -> Seq<Seq<String>> {
    ls.map_values(|l: CommonLater| l.path_spec())
}

proof fn lemma_paths_of_push(ls: Seq<CommonLater>, l: CommonLater)
    ensures
        paths_of(ls.push(l)) == paths_of(ls).push(l.path_spec()),
{
    assert(paths_of(ls.push(l)) =~= paths_of(ls).push(l.path_spec()));
}

fn starts_with_wasi(name: &String) -> (b: bool)
    ensures
        b == is_wasi_name(name@),
{
    let cs = chars_of(name.as_str());
    if cs.len() < 5 {
        return false;
    }
    let r = is_word(&cs, 5, "wasi:");
    r
}

fn collect_item(prefix: &Vec<String>, name: &String, item: &ComponentItem, out: &mut Vec<CommonLater>)
    ensures
        paths_of(final(out)@) == paths_of(old(out)@) + item_paths(prefix@, *name, *item),
    decreases item, 1int,
{
    if starts_with_wasi(name) {
        assert(paths_of(out@) + Seq::<Seq<String>>::empty() =~= paths_of(out@));
        return;
    }
    let n = name.clone();
    assert(n == *name);
    match item {
        ComponentItem::ComponentInstance(v) => {
            let inner = extend_add(Some(prefix.clone()), n);
            collect_items(&inner, v, out);
        },
        ComponentItem::Component(v) => {
            let inner = extend_add(Some(prefix.clone()), n);
            collect_items(&inner, v, out);
        },
        ComponentItem::CoreFunc => {
            let p = extend_add(Some(prefix.clone()), n);
            let ghost before = out@;
            out.push(CommonLater::Func(LaterFunc { path: Path(p) }));
            proof {
                lemma_paths_of_push(before, CommonLater::Func(LaterFunc { path: Path(p) }));
                assert(seq![prefix@.push(*name)] =~= Seq::<Seq<String>>::empty().push(prefix@.push(*name)));
            }
        },
        ComponentItem::ComponentFunc => {
            let p = extend_add(Some(prefix.clone()), n);
            let ghost before = out@;
            out.push(CommonLater::Func(LaterFunc { path: Path(p) }));
            proof {
                lemma_paths_of_push(before, CommonLater::Func(LaterFunc { path: Path(p) }));
            }
        },
        ComponentItem::Other => {
            assert(paths_of(out@) + Seq::<Seq<String>>::empty() =~= paths_of(out@));
        },
    }
}

fn collect_items(prefix: &Vec<String>, items: &Vec<(String, ComponentItem)>, out: &mut Vec<CommonLater>)
    ensures
        paths_of(final(out)@) == paths_of(old(out)@) + later_paths(prefix@, items@),
    decreases items@, 0int,
{
    let ghost start = out@;
    let n = items.len();
    let mut i: usize = 0;
    while i < n
        invariant
            n == items@.len(),
            i <= n,
            paths_of(out@) == paths_of(start) + later_paths(prefix@, items@.take(i as int)),
        decreases n - i,
    {
        let entry = &items[i];
        proof {
            assert(items@.take(i + 1).drop_last() =~= items@.take(i as int));
            assert(items@.take(i + 1).last() == items@[i as int]);
            assert(decreases_to!(items@ => items@[i as int]));
        }
        collect_item(prefix, &entry.0, &entry.1, out);
        i = i + 1;
    }
    assert(items@.take(n as int) =~= items@);
}

impl CommonLater {
    /// The function imports found under `items`, depth first and in order, each named by
    /// its path: `leading_path` followed by the names leading to it. Items whose name
    /// starts with `wasi:` are skipped together with all they hold.
    pub fn from_component_types(leading_path: Option<Path>, items: &Vec<(String, ComponentItem)>) -> (r: Vec<Self>)
        ensures
            paths_of(r@) == later_paths(
                match leading_path {
                    Some(p) => p@,
                    None => Seq::<String>::empty(),
                },
                items@,
            ),
    {
        let prefix = match leading_path {
            Some(p) => p.take(),
            None => Vec::new(),
        };
        let mut out: Vec<CommonLater> = Vec::new();
        collect_items(&prefix, items, &mut out);
        assert(paths_of(Seq::<CommonLater>::empty()) =~= Seq::<Seq<String>>::empty());
        assert(Seq::<Seq<String>>::empty() + later_paths(prefix@, items@) =~= later_paths(prefix@, items@));
        out
    }
}

/// Where a function import is to be found: its host, the names that follow the host in
/// its path, and its full name for messages.
#[derive(Debug, Clone)]
pub struct LaterTarget {
    /// The provider named by the first path element.
    pub host: Host,
    /// The path elements after the first, outermost first.
    pub rest: Vec<String>,
    /// The path joined with `->`.
    pub full_name: String,
}

impl LaterFunc {
    /// A binding for the import at `path`.
    pub fn new(path: Path) -> (f: Self)
        ensures
            f.path@ == path@,
    {
        LaterFunc { path }
    }

    /// The first steps of binding the import: the first path element must name a host.
    /// An empty path gives [`LaterError::MissingInstanceName`]; a first element that the
    /// host grammar rejects gives [`LaterError::HostParse`] holding it.
    pub fn resolve(&self) -> (r: Result<LaterTarget, LaterError>)
        ensures
            self.path@.len() == 0 ==> r matches Err(LaterError::MissingInstanceName),
            self.path@.len() > 0 ==> match host_parse(self.path@[0]@) {
                None => r matches Err(LaterError::HostParse(m)) && m@ == self.path@[0]@,
                Some((ty, name)) => r matches Ok(t) && t.host.kind() == ty && t.host.name_spec()
                    == name && t.rest@ == self.path@.drop_first() && t.full_name@ == seq_join(
                    views_of(self.path@),
                    "->"@,
                ),
            },
    {
        let parts: &Vec<String> = std::ops::Deref::deref(&self.path);
        if parts.len() == 0 {
            return Err(LaterError::MissingInstanceName);
        }
        let host = Host::from_str(parts[0].as_str())?;
        let mut rest: Vec<String> = Vec::new();
        let mut i: usize = 1;
        while i < parts.len()
            invariant
                1 <= i <= parts@.len(),
                rest@ == parts@.subrange(1, i as int),
            decreases parts@.len() - i,
        {
            let p = parts[i].clone();
            rest.push(p);
            i = i + 1;
        }
        assert(rest@ =~= parts@.drop_first());
        let full_name = join_strings(parts, "->");
        Ok(LaterTarget { host, rest, full_name })
    }
}

} // verus!

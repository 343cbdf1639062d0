use vstd::prelude::*;
use vstd::string::StrSliceExecFns;

verus! {

/// How a node takes part in its parent's layout.
#[derive(Clone, Copy, PartialEq, Eq, Debug, Structural)]
pub enum Display {
    /// Not displayed (the `none` value).
    Hidden,
    Inline,
    Block,
}

/// The layout modes of a container.
#[derive(Clone, Copy, PartialEq, Eq, Debug, Structural)]
pub enum Layout {
    Lines,
}

/// The mouse cursor shown over a node.
#[derive(Clone, Copy, PartialEq, Eq, Debug, Structural)]
pub enum Cursor {
    Default,
    Pointer,
    Text,
}

/// The map that a list of assignments leaves: a later assignment to a key
/// overrides an earlier one.
pub open spec fn assigned(es: Seq<(String, String)>) -> Map<Seq<char>, Seq<char>>
    decreases es.len(),
{
    if es.len() == 0 {
        Map::empty()
    } else {
        assigned(es.drop_last()).insert(es.last().0@, es.last().1@)
    }
}

/// Whether two strings hold the same characters.
pub fn str_eq(a: &str, b: &str) -> (r: bool)
    ensures
        r == (a@ == b@),
{
    let n = a.unicode_len();
    if n != b.unicode_len() {
        return false;
    }
    let mut i: usize = 0;
    while i < n
        invariant
            n == a@.len(),
            n == b@.len(),
            i <= n,
            forall|j: int| 0 <= j < i ==> a@[j] == b@[j],
        decreases n - i,
    {
        if a.get_char(i) != b.get_char(i) {
            return false;
        }
        i = i + 1;
    }
    assert(a@ =~= b@);
    true
}

/// Style properties by name: string keys to string values, read on demand.
pub struct Style {
    entries: Vec<(String, String)>,
}

impl View for Style {
    type V = Map<Seq<char>, Seq<char>>;

    closed spec fn view(&self) -> Map<Seq<char>, Seq<char>> {
        assigned(self.entries@)
    }
}

proof fn lemma_assigned_suffix(es: Seq<(String, String)>, i: int, k: Seq<char>)
    requires
        0 <= i <= es.len(),
        forall|j: int| i <= j < es.len() ==> (#[trigger] es[j]).0@ != k,
    ensures
        assigned(es).contains_key(k) == assigned(es.take(i)).contains_key(k),
        assigned(es).contains_key(k) ==> assigned(es)[k] == assigned(es.take(i))[k],
    decreases es.len() - i,
{
    if i < es.len() {
        let d = es.drop_last();
        assert(es.last() == es[es.len() - 1]);
        assert forall|j: int| i <= j < d.len() implies (#[trigger] d[j]).0@ != k by {
            assert(d[j] == es[j]);
        }
        lemma_assigned_suffix(d, i, k);
        assert(d.take(i) =~= es.take(i));
    } else {
        assert(es.take(i) =~= es);
    }
}

impl Style {
    /// A style with no property.
    pub fn new() -> (r: Style)
        ensures
            r@ == Map::<Seq<char>, Seq<char>>::empty(),
    {
        Style { entries: Vec::new() }
    }

    /// Sets property `key` to `value`.
    pub fn insert(&mut self, key: String, value: String)
        ensures
            final(self)@ == old(self)@.insert(key@, value@),
    {
        let ghost es = self.entries@;
        self.entries.push((key, value));
        assert(self.entries@.drop_last() =~= es);
    }

    /// The value of property `key`, if it is set.
    pub fn get(&self, key: &str) -> (r: Option<&String>)
        ensures
            r is None ==> !self@.contains_key(key@),
            r matches Some(v) ==> self@.contains_key(key@) && self@[key@] == v@,
    {
        let mut i: usize = self.entries.len();
        while i > 0
            invariant
                i <= self.entries@.len(),
                forall|j: int| i <= j < self.entries@.len() ==> (#[trigger] self.entries@[j]).0@
                    != key@,
            decreases i,
        {
            let e = &self.entries[i - 1];
            if str_eq(e.0.as_str(), key) {
                proof {
                    let es = self.entries@;
                    lemma_assigned_suffix(es, i as int, key@);
                    let t = es.take(i as int);
                    assert(t.drop_last() =~= es.take(i - 1));
                    assert(t.last() == es[i - 1]);
                }
                return Some(&e.1);
            }
            i = i - 1;
        }
        proof {
            lemma_assigned_suffix(self.entries@, 0, key@);
        }
        None
    }

    /// The properties in order of assignment.
    pub fn entries(&self) -> (r: &Vec<(String, String)>)
        ensures
            assigned(r@) == self@,
    {
        &self.entries
    }
}

/// Name of the one inherited property.
pub open spec fn inherited_key() -> Seq<char> {
    seq!['t', 'e', 'x', 't', '_', 'c', 'o', 'l', 'o', 'r']
}

/// Whether a property passes from a parent to its children.
pub open spec fn is_inherited(key: Seq<char>) -> bool {
    key == inherited_key()
}

/// Whether a property passes from a parent to its children.
pub fn is_inherited_style(name: &str) -> (r: bool)
    ensures
        r == is_inherited(name@),
{
    let lit = "text_color";
    proof {
        reveal_strlit("text_color");
        assert(lit@ =~= inherited_key());
    }
    str_eq(name, lit)
}

/// The computed style of a node: the inherited properties of its parent's
/// computed style, then its own declared properties, which win.
pub open spec fn cascade(
    declared: Map<Seq<char>, Seq<char>>,
    parent: Map<Seq<char>, Seq<char>>,
) -> Map<Seq<char>, Seq<char>> {
    parent.restrict(parent.dom().filter(|k: Seq<char>| is_inherited(k))).union_prefer_right(
        declared,
    )
}

/// Computes a node's style from its declared style and its parent's computed
/// style.
pub fn compute_style(declared: &Style, parent: &Style) -> (r: Style)
    ensures
        r@ == cascade(declared@, parent@),
{
    let mut computed = Style::new();
    let pe = parent.entries();
    let ghost pm = parent@;
    let mut i: usize = 0;
    proof {
        assert(pe@.take(0) =~= Seq::<(String, String)>::empty());
        assert(computed@ =~= assigned(pe@.take(0)).restrict(
            assigned(pe@.take(0)).dom().filter(|k: Seq<char>| is_inherited(k)),
        ));
    }
    while i < pe.len()
        invariant
            i <= pe@.len(),
            computed@ == assigned(pe@.take(i as int)).restrict(
                assigned(pe@.take(i as int)).dom().filter(|k: Seq<char>| is_inherited(k)),
            ),
        decreases pe@.len() - i,
    {
        let e = &pe[i];
        let ghost before = assigned(pe@.take(i as int));
        proof {
            let t = pe@.take(i + 1);
            assert(t.drop_last() =~= pe@.take(i as int));
            assert(t.last() == pe@[i as int]);
        }
        let ghost after = assigned(pe@.take(i + 1));
        if is_inherited_style(e.0.as_str()) {
            computed.insert(e.0.clone(), e.1.clone());
            proof {
                assert(computed@ =~= after.restrict(
                    after.dom().filter(|k: Seq<char>| is_inherited(k)),
                ));
            }
        } else {
            proof {
                assert(computed@ =~= after.restrict(
                    after.dom().filter(|k: Seq<char>| is_inherited(k)),
                ));
            }
        }
        i = i + 1;
    }
    proof {
        assert(pe@.take(i as int) =~= pe@);
    }
    let ghost base = computed@;
    let de = declared.entries();
    let mut i: usize = 0;
    proof {
        assert(de@.take(0) =~= Seq::<(String, String)>::empty());
        assert(base.union_prefer_right(assigned(de@.take(0))) =~= base);
    }
    while i < de.len()
        invariant
            i <= de@.len(),
            computed@ == base.union_prefer_right(assigned(de@.take(i as int))),
        decreases de@.len() - i,
    {
        let e = &de[i];
        proof {
            let t = de@.take(i + 1);
            assert(t.drop_last() =~= de@.take(i as int));
            assert(t.last() == de@[i as int]);
        }
        computed.insert(e.0.clone(), e.1.clone());
        assert(computed@ =~= base.union_prefer_right(assigned(de@.take(i + 1))));
        i = i + 1;
    }
    proof {
        assert(de@.take(i as int) =~= de@);
    }
    computed
}

/// The display value that a property value names, if it names one.
pub open spec fn display_named(v: Seq<char>) -> Option<Display> {
    if v == seq!['n', 'o', 'n', 'e'] {
        Some(Display::Hidden)
    } else if v == seq!['i', 'n', 'l', 'i', 'n', 'e'] {
        Some(Display::Inline)
    } else if v == seq!['b', 'l', 'o', 'c', 'k'] {
        Some(Display::Block)
    } else {
        None
    }
}

/// Reads a `display` property value: `none`, `inline` or `block`.
pub fn parse_display(v: &str) -> (r: Option<Display>)
    ensures
        r == display_named(v@),
{
    let none = "none";
    let inline = "inline";
    let block = "block";
    proof {
        reveal_strlit("none");
        reveal_strlit("inline");
        reveal_strlit("block");
        assert(none@ =~= seq!['n', 'o', 'n', 'e']);
        assert(inline@ =~= seq!['i', 'n', 'l', 'i', 'n', 'e']);
        assert(block@ =~= seq!['b', 'l', 'o', 'c', 'k']);
    }
    if str_eq(v, none) {
        Some(Display::Hidden)
    } else if str_eq(v, inline) {
        Some(Display::Inline)
    } else if str_eq(v, block) {
        Some(Display::Block)
    } else {
        None
    }
}

/// The value of a hexadecimal digit, if `c` is one.
pub open spec fn hex_value(c: char) -> Option<nat> {
    if '0' <= c <= '9' {
        Some((c as nat - '0' as nat) as nat)
    } else if 'a' <= c <= 'f' {
        Some((c as nat - 'a' as nat + 10) as nat)
    } else if 'A' <= c <= 'F' {
        Some((c as nat - 'A' as nat + 10) as nat)
    } else {
        None
    }
}

/// The number that a string of hexadecimal digits writes, most significant first.
pub open spec fn hex_number(s: Seq<char>) -> nat
    decreases s.len(),
{
    if s.len() == 0 {
        0
    } else {
        hex_number(s.drop_last()) * 16 + hex_value(s.last()).unwrap_or(0)
    }
}

/// Whether `s` is a colour written as six hexadecimal digits (`RRGGBB`).
pub open spec fn is_hex_color(s: Seq<char>) -> bool {
    s.len() == 6 && forall|i: int| 0 <= i < 6 ==> (#[trigger] hex_value(s[i])) is Some
}

/// Reads a colour written as six hexadecimal digits into `0xRRGGBB`.
pub fn parse_color(s: &str) -> (r: u32)
    requires
        is_hex_color(s@),
    ensures
        r == hex_number(s@),
        r < 0x100_0000,
{
    let mut acc: u32 = 0;
    let mut i: usize = 0;
    while i < 6
        invariant
            is_hex_color(s@),
            i <= 6,
            acc == hex_number(s@.take(i as int)),
            acc < pow16(i as nat),
        decreases 6 - i,
    {
        let c = s.get_char(i);
        let d: u32 = if '0' <= c && c <= '9' {
            (c as u32) - ('0' as u32)
        } else if 'a' <= c && c <= 'f' {
            (c as u32) - ('a' as u32) + 10
        } else {
            (c as u32) - ('A' as u32) + 10
        };
        assert(hex_value(s@[i as int]) is Some);
        proof {
            let t = s@.take(i + 1);
            assert(t.drop_last() =~= s@.take(i as int));
            assert(t.last() == c);
            assert(acc * 16 + d < pow16(i as nat) * 16) by (nonlinear_arith)
                requires
                    acc < pow16(i as nat),
                    d < 16,
            ;
        }
        acc = acc * 16 + d;
        i = i + 1;
    }
    assert(s@.take(6) =~= s@);
    acc
}

/// `16^n` for the lengths a colour goes through.
pub open spec fn pow16(n: nat) -> nat {
    if n == 0 {
        1
    } else if n == 1 {
        16
    } else if n == 2 {
        256
    } else if n == 3 {
        4096
    } else if n == 4 {
        65536
    } else if n == 5 {
        1048576
    } else {
        16777216
    }
}

/// The colour of text under a computed style: its `text_color`, else black.
pub fn text_color(style: &Style) -> (r: u32)
    requires
        style@.contains_key(inherited_key()) ==> is_hex_color(style@[inherited_key()]),
    ensures
        style@.contains_key(inherited_key()) ==> r == hex_number(style@[inherited_key()]),
        !style@.contains_key(inherited_key()) ==> r == 0,
{
    let key = "text_color";
    proof {
        reveal_strlit("text_color");
        assert(key@ =~= inherited_key());
    }
    match style.get(key) {
        Some(v) => parse_color(v.as_str()),
        None => 0,
    }
}

/// Whether a node under a computed style receives pointer input: unless its
/// `pointer_events` property is set to something other than `true`.
pub fn pointer_events(style: &Style) -> (r: bool)
    ensures
        r == (!style@.contains_key(seq!['p', 'o', 'i', 'n', 't', 'e', 'r', '_', 'e', 'v', 'e', 'n', 't', 's'])
            || style@[seq!['p', 'o', 'i', 'n', 't', 'e', 'r', '_', 'e', 'v', 'e', 'n', 't', 's']]
            == seq!['t', 'r', 'u', 'e']),
{
    let key = "pointer_events";
    let yes = "true";
    proof {
        reveal_strlit("pointer_events");
        reveal_strlit("true");
        assert(key@ =~= seq!['p', 'o', 'i', 'n', 't', 'e', 'r', '_', 'e', 'v', 'e', 'n', 't', 's']);
        assert(yes@ =~= seq!['t', 'r', 'u', 'e']);
    }
    match style.get(key) {
        Some(v) => str_eq(v.as_str(), yes),
        None => true,
    }
}


/// A computed property equals the node's own declared value when it declares
/// one; else the parent's computed value for an inherited property; and a
/// property that is neither declared nor inherited is absent, whatever the
/// parent holds.
pub proof fn lemma_cascade_property(
    declared: Map<Seq<char>, Seq<char>>,
    parent: Map<Seq<char>, Seq<char>>,
    key: Seq<char>,
)
    ensures
        declared.contains_key(key) ==> cascade(declared, parent).contains_key(key) && cascade(
            declared,
            parent,
        )[key] == declared[key],
        !declared.contains_key(key) && is_inherited(key) ==> cascade(declared, parent).contains_key(
            key,
        ) == parent.contains_key(key) && (parent.contains_key(key) ==> cascade(declared, parent)[key]
            == parent[key]),
        !declared.contains_key(key) && !is_inherited(key) ==> !cascade(
            declared,
            parent,
        ).contains_key(key),
{
}

} // verus!

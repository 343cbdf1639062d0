use vstd::prelude::*;
use vstd::string::StrSliceExecFns;
use crate::unicode::{encode16, utf16_encode};

verus! {

/// Index of a font family in the registry of a [`Fonts`].
#[derive(Clone, Copy, PartialEq, Eq, Debug, Structural)]
pub struct FontFamilyId(pub u32);

/// Index of the family registered first: the default font.
pub const DEFAULT_FAMILY: u32 = 0;

impl Default for FontFamilyId {
    fn default() -> (r: Self)
        ensures
            r.0 == DEFAULT_FAMILY,
    {
        FontFamilyId(DEFAULT_FAMILY)
    }
}

/// The UTF-16 code units of a sequence of characters.
pub open spec fn utf16_of_chars(cs: Seq<char>) -> Seq<u16>
    decreases cs.len(),
{
    if cs.len() == 0 {
        seq![]
    } else {
        encode16((cs[0] as u32) as nat) + utf16_of_chars(cs.skip(1))
    }
}

/// A family name as the text backend takes it: UTF-16, ended by a zero unit.
pub open spec fn wide_name(name: Seq<char>) -> Seq<u16> {
    utf16_of_chars(name).push(0)
}

/// Encodes `s` as UTF-16 and appends a terminating zero unit.
pub fn to_wide_name(s: &str) -> (r: Vec<u16>)
    ensures
        r@ == wide_name(s@),
{
    let n = s.unicode_len();
    let mut out: Vec<u16> = Vec::new();
    let mut i: usize = 0;
    proof {
        assert(s@.skip(0) =~= s@);
    }
    while i < n
        invariant
            n == s@.len(),
            i <= n,
            out@ + utf16_of_chars(s@.skip(i as int)) == utf16_of_chars(s@),
        decreases n - i,
    {
        let c = s.get_char(i);
        let cp = c as u32;
        proof {
            vstd::utf8::char_is_scalar(c);
            assert(s@.skip(i as int).skip(1) =~= s@.skip(i + 1));
            assert(s@.skip(i as int)[0] == c);
        }
        let ghost before = out@;
        let mut buffer: [u16; 2] = [0; 2];
        let is_double = utf16_encode(cp, &mut buffer);
        out.push(buffer[0]);
        if is_double {
            out.push(buffer[1]);
        }
        assert(out@ =~= before + encode16(cp as nat));
        assert(out@ + utf16_of_chars(s@.skip(i + 1)) =~= before + utf16_of_chars(
            s@.skip(i as int),
        ));
        i = i + 1;
    }
    proof {
        assert(s@.skip(n as int) =~= Seq::<char>::empty());
        assert(out@ =~= utf16_of_chars(s@));
    }
    out.push(0);
    out
}

/// One registered family: its name, and the name in the form the backend takes.
pub struct FontFamilyData {
    pub name_utf8: String,
    pub name_utf16: Vec<u16>,
}

/// The registry of font families, each found once in the system's collection.
pub struct Fonts {
    families: Vec<FontFamilyData>,
}

impl Fonts {
    /// The registered names, in order of registration; a family's id is its index.
    pub closed spec fn names(&self) -> Seq<Seq<char>> {
        Seq::new(self.families@.len(), |i: int| self.families@[i].name_utf8@)
    }

    /// Each family keeps its wide name beside its name, and no name is
    /// registered twice.
    pub closed spec fn wf(&self) -> bool {
        &&& self.families@.len() <= 0xFFFF_FFFF
        &&& forall|i: int|
            0 <= i < self.families@.len() ==> (#[trigger] self.families@[i]).name_utf16@
                == wide_name(self.families@[i].name_utf8@)
        &&& forall|i: int, j: int|
            0 <= i < j < self.families@.len() ==> self.families@[i].name_utf8@
                != self.families@[j].name_utf8@
    }

    /// An empty registry.
    pub fn new() -> (r: Fonts)
        ensures
            r.wf(),
            r.names() == Seq::<Seq<char>>::empty(),
    {
        let r = Fonts { families: Vec::new() };
        assert(r.names() =~= Seq::<Seq<char>>::empty());
        r
    }

    /// The id under which `name` is registered, if it is.
    pub fn find(&self, name: &str) -> (r: Option<FontFamilyId>)
        requires
            self.wf(),
        ensures
            r is None ==> !self.names().contains(name@),
            r matches Some(id) ==> id.0 < self.names().len() && self.names()[id.0 as int]
                == name@,
    {
        let owned = name.to_owned();
        let mut i: usize = 0;
        while i < self.families.len()
            invariant
                self.wf(),
                owned@ == name@,
                i <= self.families@.len(),
                forall|j: int| 0 <= j < i ==> self.families@[j].name_utf8@ != name@,
            decreases self.families@.len() - i,
        {
            if self.families[i].name_utf8 == owned {
                return Some(FontFamilyId(i as u32));
            }
            i = i + 1;
        }
        None
    }

    /// Looks `name` up; a name not yet registered is registered when the system's
    /// collection has it (`in_system`, what the backend answered for that name).
    pub fn query(&mut self, name: &str, in_system: bool) -> (r: Option<FontFamilyId>)
        requires
            old(self).wf(),
            old(self).names().len() < 0xFFFF_FFFF,
        ensures
            final(self).wf(),
            old(self).names().contains(name@) ==> {
                &&& final(self).names() == old(self).names()
                &&& r matches Some(id) && id.0 < old(self).names().len() && old(
                    self,
                ).names()[id.0 as int] == name@
            },
            !old(self).names().contains(name@) && in_system ==> {
                &&& final(self).names() == old(self).names().push(name@)
                &&& r == Some(FontFamilyId(old(self).names().len() as u32))
            },
            !old(self).names().contains(name@) && !in_system ==> {
                &&& final(self).names() == old(self).names()
                &&& r is None
            },
    {
        match self.find(name) {
            Some(id) => {
                assert(self.names()[id.0 as int] == name@);
                return Some(id);
            },
            None => {},
        }
        if in_system {
            let id = FontFamilyId(self.families.len() as u32);
            let name_utf16 = to_wide_name(name);
            let ghost old_names = self.names();
            self.families.push(FontFamilyData { name_utf8: name.to_owned(), name_utf16 });
            assert(self.names() =~= old_names.push(name@));
            assert forall|i: int, j: int|
                0 <= i < j < self.families@.len() implies self.families@[i].name_utf8@
                != self.families@[j].name_utf8@ by {
                if j == self.families@.len() - 1 {
                    assert(old_names[i] == self.families@[i].name_utf8@);
                }
            }
            Some(id)
        } else {
            None
        }
    }

    /// No name is registered twice, so a name that is registered has one id:
    /// the one that `find` and `query` hand back.
    pub proof fn lemma_names_unique(&self)
        requires
            self.wf(),
        ensures
            forall|i: int, j: int|
                0 <= i < self.names().len() && 0 <= j < self.names().len() && self.names()[i]
                    == self.names()[j] ==> i == j,
    {
        assert forall|i: int, j: int|
            0 <= i < self.names().len() && 0 <= j < self.names().len() && self.names()[i]
                == self.names()[j] implies i == j by {
            if i < j {
                assert(self.families@[i].name_utf8@ != self.families@[j].name_utf8@);
            } else if j < i {
                assert(self.families@[j].name_utf8@ != self.families@[i].name_utf8@);
            }
        }
    }

    /// The wide name of a registered family.
    pub fn font_name_utf16(&self, id: FontFamilyId) -> (r: &Vec<u16>)
        requires
            self.wf(),
            id.0 < self.names().len(),
        ensures
            r@ == wide_name(self.names()[id.0 as int]),
    {
        &self.families[id.0 as usize].name_utf16
    }

    /// The record of a registered family.
    pub fn font_data(&self, id: FontFamilyId) -> (r: &FontFamilyData)
        requires
            self.wf(),
            id.0 < self.names().len(),
        ensures
            r.name_utf8@ == self.names()[id.0 as int],
            r.name_utf16@ == wide_name(self.names()[id.0 as int]),
    {
        &self.families[id.0 as usize]
    }
}

} // verus!

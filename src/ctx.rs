use vstd::prelude::*;
use crate::fonts::{FontFamilyId, Fonts};

verus! {

/// The engine's shared context: the registry of font families.
pub struct Ctx {
    pub fonts: Fonts,
}

/// Name of the family registered first, the default font.
pub open spec fn default_family_name() -> Seq<char> {
    seq!['T', 'a', 'h', 'o', 'm', 'a']
}

impl Ctx {
    /// A context whose registry holds the default family alone, under the
    /// default id; the host has found that family in the system's collection.
    pub fn new() -> (r: Ctx)
        ensures
            r.fonts.wf(),
            r.fonts.names() == seq![default_family_name()],
    {
        let mut fonts = Fonts::new();
        let name = "Tahoma";
        proof {
            reveal_strlit("Tahoma");
            assert(name@ =~= default_family_name());
        }
        let _ = fonts.query(name, true);
        assert(fonts.names() =~= seq![default_family_name()]);
        Ctx { fonts }
    }

    /// Looks a family up by name, registering it when the system's collection
    /// has it (`in_system`, what the backend answered).
    pub fn font_query(&mut self, family_name: &str, in_system: bool) -> (r: Option<FontFamilyId>)
        requires
            old(self).fonts.wf(),
            old(self).fonts.names().len() < 0xFFFF_FFFF,
        ensures
            final(self).fonts.wf(),
            old(self).fonts.names().contains(family_name@) ==> {
                &&& final(self).fonts.names() == old(self).fonts.names()
                &&& r matches Some(id) && old(self).fonts.names()[id.0 as int] == family_name@
            },
            !old(self).fonts.names().contains(family_name@) && in_system ==> {
                &&& final(self).fonts.names() == old(self).fonts.names().push(family_name@)
                &&& r == Some(FontFamilyId(old(self).fonts.names().len() as u32))
            },
            !old(self).fonts.names().contains(family_name@) && !in_system ==> {
                &&& final(self).fonts.names() == old(self).fonts.names()
                &&& r is None
            },
    {
        self.fonts.query(family_name, in_system)
    }
}

} // verus!

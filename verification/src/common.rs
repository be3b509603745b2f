//! Names that the parts of the linker share, and the record of a definition.

use crate::table::Table;
use vstd::prelude::*;

verus! {

/// The name of the file that lists the symbols of a library directory.
pub const MAP_FILE_NAME: &'static str = "MAP";

/// The first word of a library file.
pub const MAGIC_NUMBER_LIB: &'static str = "LIBRARY";

/// The first line of a stub member.
pub const STUB_MAGIC_NUMBER: &'static str = "STUB";

/// The name of the file that names a stub library and its dependencies.
pub const LIB_NAME_FILE: &'static str = "LIBRARY NAME";

/// The symbol under which an image lists the shared libraries it needs.
pub const SHARED_LIBS_SYMBOL: &'static str = "_SHARED_LIBRARIES";

/// The name of a library.
pub type LibName = String;

/// The name of a member of a stub library.
pub type StubMemberName = String;

/// The id of a module in a session.
pub type ObjectID = String;

/// An address of the image.
pub type Address = i32;

/// Where a definition comes from.
#[derive(Debug)]
pub enum DefnProvenance {
    FromObjectIn,
    FromSharedLib(LibName),
}

/// What a provenance holds.
pub enum ProvenanceView {
    FromObjectIn,
    FromSharedLib(Seq<char>),
}

impl DeepView for DefnProvenance {
    type V = ProvenanceView;

    open spec fn deep_view(&self) -> ProvenanceView {
        match self {
            DefnProvenance::FromObjectIn => ProvenanceView::FromObjectIn,
            DefnProvenance::FromSharedLib(l) => ProvenanceView::FromSharedLib(l@),
        }
    }
}

/// The definition of a global symbol: the module that defines it, the
/// position of the symbol in that module (none for a shared library), the
/// address once it is resolved, and where the definition comes from.
#[derive(Debug)]
pub struct Defn {
    pub defn_mod_id: ObjectID,
    pub defn_ste_ix: Option<usize>,
    pub defn_addr: Option<i32>,
    pub defn_prov: DefnProvenance,
}

/// What a definition holds.
pub struct DefnView {
    pub defn_mod_id: Seq<char>,
    pub defn_ste_ix: Option<usize>,
    pub defn_addr: Option<i32>,
    pub defn_prov: ProvenanceView,
}

impl DeepView for Defn {
    type V = DefnView;

    open spec fn deep_view(&self) -> DefnView {
        DefnView {
            defn_mod_id: self.defn_mod_id@,
            defn_ste_ix: self.defn_ste_ix,
            defn_addr: self.defn_addr,
            defn_prov: self.defn_prov.deep_view(),
        }
    }
}

impl View for Defn {
    type V = DefnView;

    open spec fn view(&self) -> DefnView {
        self.deep_view()
    }
}

impl Defn {
    /// The definition by the symbol at `ste_ix` of an object module.
    pub fn new(defn_mod_id: ObjectID, ste_ix: usize, defn_addr: Option<i32>) -> (d: Defn)
        ensures
            d@ == (DefnView {
                defn_mod_id: defn_mod_id@,
                defn_ste_ix: Some(ste_ix),
                defn_addr,
                defn_prov: ProvenanceView::FromObjectIn,
            }),
    {
        Defn {
            defn_mod_id,
            defn_ste_ix: Some(ste_ix),
            defn_addr,
            defn_prov: DefnProvenance::FromObjectIn,
        }
    }

    /// The definition at `addr` by a member of the shared library `libname`.
    pub fn shared_lib_defn(defn_mod_id: ObjectID, addr: i32, libname: LibName) -> (d: Defn)
        ensures
            d@ == (DefnView {
                defn_mod_id: defn_mod_id@,
                defn_ste_ix: None,
                defn_addr: Some(addr),
                defn_prov: ProvenanceView::FromSharedLib(libname@),
            }),
    {
        Defn {
            defn_mod_id,
            defn_ste_ix: None,
            defn_addr: Some(addr),
            defn_prov: DefnProvenance::FromSharedLib(libname),
        }
    }

    /// A copy of the definition.
    pub fn duplicate(&self) -> (d: Defn)
        ensures
            d@ == self@,
    {
        Defn {
            defn_mod_id: self.defn_mod_id.clone(),
            defn_ste_ix: self.defn_ste_ix,
            defn_addr: self.defn_addr,
            defn_prov: match &self.defn_prov {
                DefnProvenance::FromObjectIn => DefnProvenance::FromObjectIn,
                DefnProvenance::FromSharedLib(l) => DefnProvenance::FromSharedLib(l.clone()),
            },
        }
    }
}

/// For each module that refers to a symbol, the position of the symbol in that module.
pub type Refs = Table<ObjectID, usize>;

} // verus!

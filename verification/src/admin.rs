//! Administrative regions and the store that owns them.

use crate::boundary::{covers, has_no_outer_vertex, within_extent, Boundary, PolygonShape};
use crate::coord::Coord;
use crate::text::str_eq;
use std::collections::HashMap;
use vstd::prelude::*;
use vstd::string::*;
use vstd::utf8::encode_utf8;

verus! {

/// An administrative region: a country, a region, a department, a city.
#[derive(Clone, Debug)]
pub struct Admin {
    /// Unique identifier, `admin:<namespace>:<code>` or `admin:<source>:<number>`.
    pub id: String,
    /// Depth in the administrative hierarchy; larger is more local.
    pub level: u32,
    /// Display name.
    pub name: String,
    /// Postal code, empty when unknown.
    pub zip_code: String,
    /// Importance score.
    pub weight: u32,
    /// A representative point of the region.
    pub coord: Option<Coord>,
    /// The extent of the region; without one no point query finds it.
    pub boundary: Option<Boundary>,
    /// Authoritative code, empty when unknown.
    pub insee: String,
}

/// The mathematical content of an [`Admin`].
pub struct AdminView {
    pub id: Seq<char>,
    pub level: u32,
    pub name: Seq<char>,
    pub zip_code: Seq<char>,
    pub weight: u32,
    pub coord: Option<Coord>,
    pub boundary: Option<Seq<PolygonShape>>,
    pub insee: Seq<char>,
}

impl View for Admin {
    type V = AdminView;

    open spec fn view(&self) -> AdminView {
        AdminView {
            id: self.id@,
            level: self.level,
            name: self.name@,
            zip_code: self.zip_code@,
            weight: self.weight,
            coord: self.coord,
            boundary: match self.boundary {
                Some(b) => Some(b@),
                None => None,
            },
            insee: self.insee@,
        }
    }
}

impl AdminView {
    /// The region has a boundary with an outer vertex, and so an extent.
    pub open spec fn has_extent(self) -> bool {
        match self.boundary {
            Some(shape) => !has_no_outer_vertex(shape),
            None => false,
        }
    }

    /// The region has a boundary and `p` lies in its bounding box.
    pub open spec fn within_extent(self, p: Coord) -> bool {
        match self.boundary {
            Some(shape) => within_extent(shape, p),
            None => false,
        }
    }

    /// The region has a boundary and `p` is inside it.
    pub open spec fn covers(self, p: Coord) -> bool {
        match self.boundary {
            Some(shape) => covers(shape, p),
            None => false,
        }
    }
}

impl Admin {
    /// Whether the region has a boundary with `p` inside it.
    pub fn contains(&self, p: Coord) -> (r: bool)
        ensures
            r == self@.covers(p),
    {
        match &self.boundary {
            Some(b) => b.contains(p),
            None => false,
        }
    }
}

/// The contents of a list of regions.
pub open spec fn admin_views(admins: Seq<Admin>) -> Seq<AdminView> {
    Seq::new(admins.len(), |i: int| admins[i]@)
}

/// The last region of `admins` that holds the authoritative code `code`.
/// The empty code stands for "unknown" and is held by none.
pub open spec fn code_holder(admins: Seq<AdminView>, code: Seq<char>) -> Option<int>
    decreases admins.len(),
{
    if code.len() == 0 || admins.len() == 0 {
        None
    } else if admins.last().insee == code {
        Some(admins.len() - 1)
    } else {
        code_holder(admins.drop_last(), code)
    }
}

/// What [`code_holder`] picks: a region with that code after which no other
/// region has it, or nothing where the code is empty or no region has it.
pub proof fn lemma_code_holder(admins: Seq<AdminView>, code: Seq<char>)
    ensures
        match code_holder(admins, code) {
            Some(h) => {
                &&& 0 <= h < admins.len()
                &&& code.len() > 0
                &&& admins[h].insee == code
                &&& forall|j: int| h < j < admins.len() ==> (#[trigger] admins[j]).insee != code
            },
            None => code.len() == 0 || forall|j: int|
                0 <= j < admins.len() ==> (#[trigger] admins[j]).insee != code,
        },
    decreases admins.len(),
{
    if code.len() != 0 && admins.len() != 0 && admins.last().insee != code {
        let rest = admins.drop_last();
        lemma_code_holder(rest, code);
        assert(forall|j: int| 0 <= j < rest.len() ==> rest[j] == admins[j]);
        match code_holder(rest, code) {
            Some(h) => {
                assert forall|j: int| h < j < admins.len() implies (#[trigger] admins[j]).insee
                    != code by {
                    if j < rest.len() {
                        assert(rest[j].insee != code);
                    }
                }
            },
            None => {
                assert forall|j: int| 0 <= j < admins.len() implies (#[trigger] admins[j]).insee
                    != code by {
                    if j < rest.len() {
                        assert(rest[j].insee != code);
                    }
                }
            },
        }
    }
}

/// Where [`code_holder`] picks what, from the other side: a region with the
/// code after which no region has it is the one picked, and where no region
/// has the code none is picked.
pub proof fn lemma_code_holder_is(admins: Seq<AdminView>, code: Seq<char>, found: Option<int>)
    requires
        code.len() > 0,
        match found {
            Some(h) => {
                &&& 0 <= h < admins.len()
                &&& admins[h].insee == code
                &&& forall|j: int| h < j < admins.len() ==> (#[trigger] admins[j]).insee != code
            },
            None => forall|j: int| 0 <= j < admins.len() ==> (#[trigger] admins[j]).insee != code,
        },
    ensures
        code_holder(admins, code) == found,
{
    lemma_code_holder(admins, code);
    match code_holder(admins, code) {
        Some(picked) => {
            assert(admins[picked].insee == code);
            if let Some(h) = found {
                assert(admins[h].insee == code);
            }
        },
        None => {
            if let Some(h) = found {
                assert(admins[h].insee == code);
            }
        },
    }
}

/// The modulus of the keys under which codes are filed, a prime.
const KEY_MODULUS: u64 = 4294967291;

/// The key of a text that ends with the byte `b` after a text of key `key`.
spec fn next_key(key: int, b: u8) -> int {
    (key * 31 + b) % (KEY_MODULUS as int)
}

/// The key of the text with these bytes.
spec fn bytes_key(bytes: Seq<u8>) -> int
    decreases bytes.len(),
{
    if bytes.len() == 0 {
        0
    } else {
        next_key(bytes_key(bytes.drop_last()), bytes.last())
    }
}

/// The key under which a code is filed.
spec fn code_key(code: Seq<char>) -> int {
    bytes_key(encode_utf8(code))
}

/// Computes the key under which a code is filed.
fn key_of(code: &str) -> (key: u64)
    ensures
        key == code_key(code@),
{
    let bytes = code.as_bytes();
    let mut key: u64 = 0;
    let mut i: usize = 0;
    while i < bytes.len()
        invariant
            i <= bytes.len(),
            bytes@ == encode_utf8(code@),
            key < KEY_MODULUS,
            key == bytes_key(bytes@.take(i as int)),
        decreases bytes.len() - i,
    {
        assert(bytes@.take(i as int + 1).drop_last() == bytes@.take(i as int));
        key = (key * 31 + bytes[i] as u64) % KEY_MODULUS;
        i += 1;
    }
    assert(bytes@.take(i as int) == bytes@);
    key
}

/// The regions of one run. Regions are added and never changed or removed;
/// a region is named by its handle, the position at which it was added.
/// Beside the regions the store keeps a table from authoritative codes to
/// handles: the handles of the regions with a code, filed under the key of
/// the code in the order in which they were added.
pub struct AdminStore {
    admins: Vec<Admin>,
    by_code: HashMap<u64, Vec<usize>>,
}

impl View for AdminStore {
    type V = Seq<AdminView>;

    closed spec fn view(&self) -> Seq<AdminView> {
        admin_views(self.admins@)
    }
}

/// What the table of codes holds is right: every handle filed under a key
/// names a region whose code has that key, and the handles under one key
/// ascend.
spec fn table_sound(admins: Seq<AdminView>, table: Map<u64, Vec<usize>>) -> bool {
    &&& forall|key: u64, i: int|
        table.contains_key(key) && 0 <= i < table[key]@.len() ==> {
            let h = #[trigger] table[key]@[i];
            &&& h < admins.len()
            &&& admins[h as int].insee.len() > 0
            &&& code_key(admins[h as int].insee) == key
        }
    &&& forall|key: u64, i: int, j: int|
        table.contains_key(key) && 0 <= i < j < table[key]@.len() ==> #[trigger] table[key]@[i]
            < #[trigger] table[key]@[j]
}

/// The table of codes leaves no region with a code out.
spec fn table_complete(admins: Seq<AdminView>, table: Map<u64, Vec<usize>>) -> bool {
    forall|h: usize|
        h < admins.len() && (#[trigger] admins[h as int]).insee.len() > 0 ==> {
            let key = code_key(admins[h as int].insee) as u64;
            table.contains_key(key) && table[key]@.contains(h)
        }
}

impl AdminStore {
    /// The table of codes agrees with the regions at all times.
    #[verifier::type_invariant]
    spec fn sound(self) -> bool {
        &&& table_sound(admin_views(self.admins@), self.by_code@)
        &&& table_complete(admin_views(self.admins@), self.by_code@)
    }

    /// A store without regions.
    pub fn new() -> (store: AdminStore)
        ensures
            store@ == Seq::<AdminView>::empty(),
    {
        let store = AdminStore { admins: Vec::new(), by_code: HashMap::new() };
        assert(store@ =~= Seq::<AdminView>::empty());
        store
    }

    /// Adds a region and returns its handle.
    pub fn insert(&mut self, admin: Admin) -> (handle: usize)
        ensures
            final(self)@ == old(self)@.push(admin@),
            handle == old(self)@.len(),
    {
        proof {
            use_type_invariant(&*self);
        }
        let mut taken = AdminStore::new();
        std::mem::swap(self, &mut taken);
        let AdminStore { mut admins, mut by_code } = taken;
        let ghost before = admin_views(admins@);
        let ghost table = by_code@;
        let handle = admins.len();
        let code_is_empty = admin.insee.as_str().unicode_len() == 0;
        let key = key_of(admin.insee.as_str());
        admins.push(admin);
        let ghost after = admin_views(admins@);
        assert(after =~= before.push(admin@));
        if !code_is_empty {
            let mut filed = match by_code.remove(&key) {
                Some(filed) => filed,
                None => Vec::new(),
            };
            let ghost filed_before = filed@;
            filed.push(handle);
            by_code.insert(key, filed);
            proof {
                assert forall|k: u64, i: int|
                    by_code@.contains_key(k) && 0 <= i < by_code@[k]@.len() implies {
                    let h = #[trigger] by_code@[k]@[i];
                    &&& h < after.len()
                    &&& after[h as int].insee.len() > 0
                    &&& code_key(after[h as int].insee) == k
                } by {
                    if k == key {
                        if i < filed_before.len() {
                            assert(table[k]@[i] == filed_before[i]);
                        }
                    } else {
                        assert(table[k]@[i] == by_code@[k]@[i]);
                    }
                }
                assert forall|k: u64, i: int, j: int|
                    by_code@.contains_key(k) && 0 <= i < j < by_code@[k]@.len() implies #[trigger] by_code@[k]@[i]
                    < #[trigger] by_code@[k]@[j] by {
                    if k == key {
                        if j < filed_before.len() {
                            assert(table[k]@[i] < table[k]@[j]);
                        } else {
                            assert(table[k]@[i] == filed_before[i]);
                        }
                    } else {
                        assert(table[k]@[i] < table[k]@[j]);
                    }
                }
                assert forall|h: usize|
                    h < after.len() && (#[trigger] after[h as int]).insee.len() > 0 implies {
                    let k = code_key(after[h as int].insee) as u64;
                    by_code@.contains_key(k) && by_code@[k]@.contains(h)
                } by {
                    let k = code_key(after[h as int].insee) as u64;
                    if h == handle {
                        assert(by_code@[k]@[filed_before.len() as int] == h);
                    } else {
                        assert(before[h as int].insee.len() > 0);
                        let at = choose|at: int| 0 <= at < table[k]@.len() && table[k]@[at] == h;
                        assert(by_code@[k]@[at] == h);
                    }
                }
            }
        } else {
            proof {
                assert forall|k: u64, i: int|
                    by_code@.contains_key(k) && 0 <= i < by_code@[k]@.len() implies {
                    let h = #[trigger] by_code@[k]@[i];
                    &&& h < after.len()
                    &&& after[h as int].insee.len() > 0
                    &&& code_key(after[h as int].insee) == k
                } by {
                    assert(table[k]@[i] < before.len());
                }
                assert forall|h: usize|
                    h < after.len() && (#[trigger] after[h as int]).insee.len() > 0 implies {
                    let k = code_key(after[h as int].insee) as u64;
                    by_code@.contains_key(k) && by_code@[k]@.contains(h)
                } by {
                    assert(before[h as int].insee.len() > 0);
                }
            }
        }
        *self = AdminStore { admins: admins, by_code: by_code };
        handle
    }

    /// The number of regions.
    pub fn len(&self) -> (n: usize)
        ensures
            n == self@.len(),
    {
        self.admins.len()
    }

    /// The region with the given handle.
    pub fn get(&self, handle: usize) -> (admin: &Admin)
        requires
            handle < self@.len(),
        ensures
            admin@ == self@[handle as int],
    {
        &self.admins[handle]
    }

    /// The handle of the region that an authoritative code designates.
    pub fn find_by_code(&self, code: &str) -> (r: Option<usize>)
        ensures
            match r {
                Some(h) => code_holder(self@, code@) == Some(h as int),
                None => code_holder(self@, code@) is None,
            },
    {
        proof {
            use_type_invariant(self);
        }
        if code.unicode_len() == 0 {
            return None;
        }
        let count = self.admins.len();
        assert(self@.len() == count);
        let key = key_of(code);
        let filed = match self.by_code.get(&key) {
            Some(filed) => filed,
            None => {
                proof {
                    assert forall|j: int| 0 <= j < self@.len() implies (#[trigger] self@[j]).insee
                        != code@ by {
                        if self@[j].insee == code@ {
                            assert(self@[j as usize as int].insee.len() > 0);
                        }
                    }
                    lemma_code_holder_is(self@, code@, None);
                }
                return None;
            },
        };
        let mut i: usize = filed.len();
        while i > 0
            invariant
                i <= filed.len(),
                code@.len() > 0,
                key == code_key(code@),
                self.by_code@.contains_key(key),
                self.by_code@[key] == filed,
                table_sound(self@, self.by_code@),
                table_complete(self@, self.by_code@),
                self@.len() == self.admins.len(),
                forall|m: int|
                    i <= m < filed.len() ==> self@[(#[trigger] filed[m]) as int].insee != code@,
            decreases i,
        {
            i -= 1;
            let h = filed[i];
            assert(self.by_code@[key]@[i as int] == h);
            if str_eq(self.admins[h].insee.as_str(), code) {
                proof {
                    assert forall|j: int| h < j < self@.len() implies (#[trigger] self@[j]).insee
                        != code@ by {
                        if self@[j].insee == code@ {
                            assert(self@[j as usize as int].insee.len() > 0);
                            let at = choose|at: int| 0 <= at < filed@.len() && filed@[at] == j as usize;
                            if at <= i {
                                if at < i {
                                    assert(self.by_code@[key]@[at] < self.by_code@[key]@[i as int]);
                                }
                            } else {
                                assert(self@[filed[at] as int].insee != code@);
                            }
                        }
                    }
                    lemma_code_holder_is(self@, code@, Some(h as int));
                }
                return Some(h);
            }
        }
        proof {
            assert forall|j: int| 0 <= j < self@.len() implies (#[trigger] self@[j]).insee
                != code@ by {
                if self@[j].insee == code@ {
                    assert(self@[j as usize as int].insee.len() > 0);
                    let at = choose|at: int| 0 <= at < filed@.len() && filed@[at] == j as usize;
                    assert(self@[filed[at] as int].insee != code@);
                }
            }
            lemma_code_holder_is(self@, code@, None);
        }
        None
    }
}

} // verus!

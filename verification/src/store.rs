//! Lazy per-atom basis store.
//!
//! A store maps element symbols to cache slots. A slot starts unloaded,
//! holding only the path of the atom's file; the host layer reads that
//! file and hands the bytes to `load`, which decodes them into the slot.
//! A slot transitions unloaded to loaded at most once and never reverts:
//! loading into an already loaded slot leaves the stored value untouched.
//!
//! The store never touches storage itself; it only decides. The host
//! layer asks `path_to_load` whether a read is needed, performs it, and
//! feeds the bytes back.

use vstd::prelude::*;
use vstd::string::StrSliceExecFns;

use crate::codec::{decode, lemma_codec_round_trip, spec_decode, spec_encode};
use crate::data::{wf_basis_v, AtomBasis, BasisError, ShellV};

verus! {

/// Model of one cache slot: unloaded with a recorded file path, or
/// loaded with the decoded shell list.
pub ghost enum SlotV {
    Unloaded(Seq<char>),
    Loaded(Seq<ShellV>),
}

/// Character-for-character string equality.
fn str_eq(a: &str, b: &str) -> (r: bool)
    ensures
        r == (a@ == b@),
{
    let na = a.unicode_len();
    let nb = b.unicode_len();
    if na != nb {
        return false;
    }
    let mut i: usize = 0;
    while i < na
        invariant
            na == a@.len(),
            na == b@.len(),
            i <= na,
            forall|k: int| 0 <= k < i ==> a@[k] == b@[k],
        decreases na - i,
    {
        if a.get_char(i) != b.get_char(i) {
            return false;
        }
        i += 1;
    }
    proof {
        assert(a@ =~= b@);
    }
    true
}

/// One atom's cache slot.
pub struct LazyAtomBasis {
    basis: Option<AtomBasis>,
    filepath: String,
}

impl View for LazyAtomBasis {
    type V = SlotV;

    closed spec fn view(&self) -> SlotV {
        match self.basis {
            Some(b) => SlotV::Loaded(b@),
            None => SlotV::Unloaded(self.filepath@),
        }
    }
}

impl LazyAtomBasis {
    pub open spec fn wf(&self) -> bool {
        self@ matches SlotV::Loaded(v) ==> wf_basis_v(v)
    }

    /// A fresh, unloaded slot for the file at `filepath`.
    pub fn new(filepath: String) -> (r: Self)
        ensures
            r@ == SlotV::Unloaded(filepath@),
            r.wf(),
    {
        LazyAtomBasis { basis: None, filepath }
    }

    /// The cached shell list, present exactly when the slot is loaded.
    pub fn get(&self) -> (r: Option<&AtomBasis>)
        ensures
            match self@ {
                SlotV::Loaded(v) => r matches Some(b) && b@ == v,
                SlotV::Unloaded(_) => r is None,
            },
    {
        self.basis.as_ref()
    }

    /// The recorded file path while the slot is still unloaded.
    pub fn path(&self) -> (r: Option<&String>)
        ensures
            match self@ {
                SlotV::Unloaded(p) => r matches Some(q) && q@ == p,
                SlotV::Loaded(_) => r is None,
            },
    {
        match self.basis {
            Some(_) => None,
            None => Some(&self.filepath),
        }
    }

    /// Decodes `bytes` into an unloaded slot. A loaded slot is left
    /// untouched, whatever the bytes: a slot is filled at most once.
    pub fn load(&mut self, bytes: &[u8]) -> (r: Result<(), BasisError>)
        ensures
            old(self)@ matches SlotV::Loaded(_) ==> final(self)@ == old(self)@ && r == Ok::<
                (),
                BasisError,
            >(()),
            old(self)@ matches SlotV::Unloaded(_) ==> match spec_decode(bytes@) {
                Some(m) => final(self)@ == SlotV::Loaded(m) && r == Ok::<(), BasisError>(()),
                None => final(self)@ == old(self)@ && r == Err::<(), BasisError>(
                    BasisError::CorruptEncoding,
                ),
            },
            old(self).wf() ==> final(self).wf(),
    {
        if self.basis.is_some() {
            return Ok(());
        }
        match decode(bytes) {
            Ok(ab) => {
                self.basis = Some(ab);
                Ok(())
            },
            Err(e) => Err(e),
        }
    }
}

/// The slot under the first entry with the given symbol, if any.
pub open spec fn find_slot(s: Seq<(Seq<char>, SlotV)>, k: Seq<char>) -> Option<SlotV>
    decreases s.len(),
{
    if s.len() == 0 {
        None
    } else if s[0].0 == k {
        Some(s[0].1)
    } else {
        find_slot(s.drop_first(), k)
    }
}

/// The store with the first entry for the symbol replaced by `v`.
pub open spec fn update_slot(s: Seq<(Seq<char>, SlotV)>, k: Seq<char>, v: SlotV) -> Seq<
    (Seq<char>, SlotV),
>
    decreases s.len(),
{
    if s.len() == 0 {
        s
    } else if s[0].0 == k {
        seq![(k, v)] + s.drop_first()
    } else {
        seq![s[0]] + update_slot(s.drop_first(), k, v)
    }
}

pub open spec fn wf_store(s: Seq<(Seq<char>, SlotV)>) -> bool {
    forall|i: int|
        0 <= i < s.len() ==> match (#[trigger] s[i]).1 {
            SlotV::Loaded(v) => wf_basis_v(v),
            SlotV::Unloaded(_) => true,
        }
}

proof fn lemma_find_slot_skip(s: Seq<(Seq<char>, SlotV)>, k: Seq<char>, i: int)
    requires
        0 <= i <= s.len(),
        forall|j: int| 0 <= j < i ==> (#[trigger] s[j]).0 != k,
    ensures
        find_slot(s, k) == find_slot(s.skip(i), k),
    decreases i,
{
    if i > 0 {
        assert(s[0].0 != k);
        lemma_find_slot_skip(s.drop_first(), k, i - 1);
        assert(s.drop_first().skip(i - 1) =~= s.skip(i));
    } else {
        assert(s.skip(0) =~= s);
    }
}

proof fn lemma_update_slot_at(s: Seq<(Seq<char>, SlotV)>, k: Seq<char>, v: SlotV, i: int)
    requires
        0 <= i < s.len(),
        s[i].0 == k,
        forall|j: int| 0 <= j < i ==> (#[trigger] s[j]).0 != k,
    ensures
        update_slot(s, k, v) == s.update(i, (k, v)),
    decreases i,
{
    if i == 0 {
        assert(update_slot(s, k, v) =~= s.update(0, (k, v)));
    } else {
        assert(s[0].0 != k);
        lemma_update_slot_at(s.drop_first(), k, v, i - 1);
        assert(s.drop_first().update(i - 1, (k, v)) =~= s.update(i, (k, v)).drop_first());
        assert(seq![s[0]] + s.drop_first().update(i - 1, (k, v)) =~= s.update(i, (k, v)));
    }
}

/// Replacing a present slot is what a later lookup sees.
pub proof fn lemma_find_update(s: Seq<(Seq<char>, SlotV)>, k: Seq<char>, v: SlotV)
    requires
        find_slot(s, k) is Some,
    ensures
        find_slot(update_slot(s, k, v), k) == Some(v),
    decreases s.len(),
{
    if s.len() > 0 {
        if s[0].0 == k {
            assert((seq![(k, v)] + s.drop_first())[0] == (k, v));
        } else {
            lemma_find_update(s.drop_first(), k, v);
            assert((seq![s[0]] + update_slot(s.drop_first(), k, v)).drop_first()
                =~= update_slot(s.drop_first(), k, v));
            assert((seq![s[0]] + update_slot(s.drop_first(), k, v))[0] == s[0]);
        }
    }
}

/// Persistence round trip: decoding the encoding of a well-formed shell
/// list yields that list, and loading it into a present slot is exactly
/// what a later lookup of the same symbol returns.
pub proof fn lemma_persist_round_trip(s: Seq<(Seq<char>, SlotV)>, k: Seq<char>, x: Seq<ShellV>)
    requires
        wf_basis_v(x),
        x.len() <= usize::MAX,
        find_slot(s, k) is Some,
    ensures
        spec_decode(spec_encode(x)) == Some(x),
        find_slot(update_slot(s, k, SlotV::Loaded(x)), k) == Some(SlotV::Loaded(x)),
{
    lemma_codec_round_trip(x);
    lemma_find_update(s, k, SlotV::Loaded(x));
}

/// A lazy basis store: one slot per element symbol.
pub struct LazyBasis {
    basis: Vec<(String, LazyAtomBasis)>,
}

impl View for LazyBasis {
    type V = Seq<(Seq<char>, SlotV)>;

    closed spec fn view(&self) -> Seq<(Seq<char>, SlotV)> {
        Seq::new(self.basis@.len(), |i: int| (self.basis@[i].0@, self.basis@[i].1@))
    }
}

impl LazyBasis {
    pub open spec fn wf(&self) -> bool {
        wf_store(self@)
    }

    /// Builds a store over (symbol, file path) entries, every slot
    /// unloaded; nothing is read. Entries keep their order; under
    /// duplicate symbols the first entry wins on every later lookup.
    pub fn new(entries: Vec<(String, String)>) -> (r: Self)
        ensures
            r@.len() == entries@.len(),
            forall|i: int|
                0 <= i < entries@.len() ==> r@[i] == (
                    (#[trigger] entries@[i]).0@,
                    SlotV::Unloaded(entries@[i].1@),
                ),
            r.wf(),
    {
        let n = entries.len();
        let mut v: Vec<(String, LazyAtomBasis)> = Vec::new();
        for i in 0..n
            invariant
                n == entries@.len(),
                v@.len() == i,
                forall|k: int|
                    0 <= k < i ==> (#[trigger] v@[k]).0@ == entries@[k].0@ && v@[k].1@
                        == SlotV::Unloaded(entries@[k].1@),
        {
            let key = entries[i].0.clone();
            let path = entries[i].1.clone();
            v.push((key, LazyAtomBasis::new(path)));
        }
        LazyBasis { basis: v }
    }

    fn find_index(&self, atom: &str) -> (r: Option<usize>)
        ensures
            match r {
                Some(i) => {
                    &&& i < self@.len()
                    &&& self@[i as int].0 == atom@
                    &&& forall|j: int| 0 <= j < i ==> (#[trigger] self@[j]).0 != atom@
                    &&& find_slot(self@, atom@) == Some(self@[i as int].1)
                },
                None => find_slot(self@, atom@) is None,
            },
    {
        let n = self.basis.len();
        for i in 0..n
            invariant
                n == self@.len(),
                n == self.basis@.len(),
                forall|j: int| 0 <= j < i ==> (#[trigger] self@[j]).0 != atom@,
        {
            if str_eq(self.basis[i].0.as_str(), atom) {
                proof {
                    lemma_find_slot_skip(self@, atom@, i as int);
                    assert(self@.skip(i as int)[0] == self@[i as int]);
                }
                return Some(i);
            }
        }
        proof {
            lemma_find_slot_skip(self@, atom@, n as int);
            assert(self@.skip(n as int) =~= Seq::<(Seq<char>, SlotV)>::empty());
        }
        None
    }

    /// The cached basis under a symbol: `UnknownAtom` when the symbol
    /// is not in the store at all, `Ok(None)` while its slot is still
    /// unloaded, and the stored value once the slot is loaded.
    pub fn get(&self, atom: &str) -> (r: Result<Option<&AtomBasis>, BasisError>)
        ensures
            match find_slot(self@, atom@) {
                None => r == Err::<Option<&AtomBasis>, BasisError>(BasisError::UnknownAtom),
                Some(SlotV::Loaded(v)) => r matches Ok(Some(b)) && b@ == v,
                Some(SlotV::Unloaded(_)) => r matches Ok(o) && o is None,
            },
    {
        match self.find_index(atom) {
            None => Err(BasisError::UnknownAtom),
            Some(i) => Ok(self.basis[i].1.get()),
        }
    }

    /// The file still to be read for a symbol: present exactly when the
    /// symbol's slot exists and is unloaded.
    pub fn path_to_load(&self, atom: &str) -> (r: Option<&String>)
        ensures
            match find_slot(self@, atom@) {
                Some(SlotV::Unloaded(p)) => r matches Some(q) && q@ == p,
                _ => r is None,
            },
    {
        match self.find_index(atom) {
            None => None,
            Some(i) => self.basis[i].1.path(),
        }
    }

    /// Decodes `bytes` into the slot under `atom`. The first successful
    /// load fills the slot; any later load returns `Ok` and leaves the
    /// stored value untouched, whatever bytes it is handed.
    pub fn load(&mut self, atom: &str, bytes: &[u8]) -> (r: Result<(), BasisError>)
        ensures
            match find_slot(old(self)@, atom@) {
                None => r == Err::<(), BasisError>(BasisError::UnknownAtom) && final(self)@ == old(
                    self,
                )@,
                Some(SlotV::Loaded(_)) => r == Ok::<(), BasisError>(()) && final(self)@ == old(
                    self,
                )@,
                Some(SlotV::Unloaded(_)) => match spec_decode(bytes@) {
                    Some(m) => r == Ok::<(), BasisError>(()) && final(self)@ == update_slot(
                        old(self)@,
                        atom@,
                        SlotV::Loaded(m),
                    ),
                    None => r == Err::<(), BasisError>(BasisError::CorruptEncoding) && final(self)@
                        == old(self)@,
                },
            },
            old(self).wf() ==> final(self).wf(),
    {
        let i = match self.find_index(atom) {
            None => {
                return Err(BasisError::UnknownAtom);
            },
            Some(i) => i,
        };
        let (key, mut slot) = self.basis.remove(i);
        let res = slot.load(bytes);
        let ghost slot_v = slot@;
        self.basis.insert(i, (key, slot));
        proof {
            assert(self.basis@ =~= old(self).basis@.update(i as int, (key, slot)));
            assert(self@ =~= old(self)@.update(i as int, (atom@, slot_v)));
            match find_slot(old(self)@, atom@) {
                Some(SlotV::Loaded(_)) => {
                    assert(self@ =~= old(self)@);
                },
                Some(SlotV::Unloaded(_)) => {
                    match spec_decode(bytes@) {
                        Some(m) => {
                            lemma_update_slot_at(old(self)@, atom@, SlotV::Loaded(m), i as int);
                        },
                        None => {
                            assert(self@ =~= old(self)@);
                        },
                    }
                },
                None => {},
            }
            if old(self).wf() {
                assert forall|j: int| 0 <= j < self@.len() implies match (#[trigger] self@[j]).1 {
                    SlotV::Loaded(v) => wf_basis_v(v),
                    SlotV::Unloaded(_) => true,
                } by {
                    if j != i {
                        assert(self@[j] == old(self)@[j]);
                    }
                }
            }
        }
        res
    }
}

} // verus!

use vstd::prelude::*;
use vstd::string::StrSliceExecFns;

use rand::Rng;

use crate::pasta::{classify, is_valid_url, no_file, no_file_name, normalize_file_name, normalized,
    Pasta, PastaKind, PastaV};
use crate::text::str_eq;
use crate::StoreError;

verus! {

/// The largest expiration offset a choice can name, in seconds.
pub const MAX_OFFSET: u64 = 604800;

/// The offset in seconds that an expiration choice names; the `never`
/// choice names offset zero, standing for the no-expiration sentinel.
pub open spec fn choice_offset(c: Seq<char>) -> Option<u64> {
    if c == "never"@ {
        Some(0)
    } else if c == "1min"@ {
        Some(60)
    } else if c == "10min"@ {
        Some(600)
    } else if c == "1hour"@ {
        Some(3600)
    } else if c == "24hour"@ {
        Some(86400)
    } else if c == "1week"@ {
        Some(604800)
    } else {
        None
    }
}

/// The `expires_at` deadline a choice yields at creation time `now`:
/// the sentinel `0` for `never`, else `now` plus the named offset.
pub open spec fn spec_expiration(c: Seq<char>, now: u64) -> u64 {
    if c == "never"@ {
        0
    } else {
        match choice_offset(c) {
            Some(off) => (now + off) as u64,
            None => 0,
        }
    }
}

/// Turn an expiration choice into an absolute deadline.
/// Fails with `InvalidExpirationChoice` on an unrecognized keyword.
pub fn parse_expiration(choice: &str, now: u64) -> (r: Result<u64, StoreError>)
    requires
        now <= u64::MAX - MAX_OFFSET,
    ensures
        match r {
            Ok(e) => choice_offset(choice@) is Some && e == spec_expiration(choice@, now),
            Err(err) => err == StoreError::InvalidExpirationChoice && choice_offset(
                choice@,
            ) is None,
        },
{
    if str_eq(choice, "never") {
        Ok(0)
    } else if str_eq(choice, "1min") {
        Ok(now + 60)
    } else if str_eq(choice, "10min") {
        Ok(now + 600)
    } else if str_eq(choice, "1hour") {
        Ok(now + 3600)
    } else if str_eq(choice, "24hour") {
        Ok(now + 86400)
    } else if str_eq(choice, "1week") {
        Ok(now + 604800)
    } else {
        Err(StoreError::InvalidExpirationChoice)
    }
}

/// Relies on rand's `thread_rng` and `Rng::gen::<u16>`: the drawn value
/// fits 16 bits; nothing more is assumed of it.
#[verifier::external_body]
fn random_id() -> (r: u64)
    ensures
        r <= 0xFFFF,
{
    rand::thread_rng().gen::<u16>() as u64
}

/// A paste survives the sweep at time `now` when it never expires or its
/// deadline lies strictly in the future.
pub open spec fn live(p: PastaV, now: u64) -> bool {
    p.expiration == 0 || p.expiration > now
}

/// The records that survive an expiration sweep at time `now`, in order.
pub open spec fn sweep(s: Seq<PastaV>, now: u64) -> Seq<PastaV> {
    s.filter(|p: PastaV| live(p, now))
}

/// The first record with the given id, scanning in insertion order.
pub open spec fn find_in(s: Seq<PastaV>, id: u64) -> Option<PastaV>
    decreases s.len(),
{
    if s.len() == 0 {
        None
    } else if s[0].id == id {
        Some(s[0])
    } else {
        find_in(s.skip(1), id)
    }
}

/// The sequence with the first record of the given id taken out;
/// unchanged when no record has the id.
pub open spec fn remove_first(s: Seq<PastaV>, id: u64) -> Seq<PastaV>
    decreases s.len(),
{
    if s.len() == 0 {
        s
    } else if s[0].id == id {
        s.skip(1)
    } else {
        seq![s[0]] + remove_first(s.skip(1), id)
    }
}

/// Whether a file payload with a nonempty name is attached.
pub open spec fn spec_has_file(file: Option<Seq<char>>) -> bool {
    match file {
        Some(f) => f.len() > 0,
        None => false,
    }
}

/// The file name a new record stores: the normalized attached name, or
/// the sentinel when no file came.
pub open spec fn stored_file_name(file: Option<Seq<char>>) -> Seq<char> {
    match file {
        Some(f) => if f.len() > 0 {
            normalized(f)
        } else {
            no_file()
        },
        None => no_file(),
    }
}

/// The record that a successful creation appends.
pub open spec fn new_record(
    id: u64,
    content: Seq<char>,
    file: Option<Seq<char>>,
    choice: Seq<char>,
    now: u64,
) -> PastaV {
    PastaV {
        id,
        content,
        file: stored_file_name(file),
        created: now,
        kind: classify(content, spec_has_file(file)),
        expiration: spec_expiration(choice, now),
    }
}

/// The authoritative in-memory collection of pastes, in insertion order.
pub struct PastaStore {
    pub pastas: Vec<Pasta>,
}

impl View for PastaStore {
    type V = Seq<PastaV>;

    open spec fn view(&self) -> Seq<PastaV> {
        self.pastas.deep_view()
    }
}

impl PastaStore {
    /// An empty store.
    pub fn new() -> (r: PastaStore)
        ensures
            r@ == Seq::<PastaV>::empty(),
    {
        let r = PastaStore { pastas: Vec::new() };
        proof {
            assert(r@ =~= Seq::<PastaV>::empty());
        }
        r
    }

    /// A store holding the given records, in the given order.
    pub fn from_pastas(pastas: Vec<Pasta>) -> (r: PastaStore)
        ensures
            r@ == pastas.deep_view(),
    {
        PastaStore { pastas }
    }

    /// The expiration sweep: evict every record whose deadline is nonzero
    /// and no longer in the future.
    #[verifier::loop_isolation(false)]
    pub fn remove_expired(&mut self, now: u64)
        ensures
            final(self)@ == sweep(old(self)@, now),
    {
        let ghost dv = self.pastas.deep_view();
        let ghost pred = |p: PastaV| live(p, now);
        let mut kept: Vec<Pasta> = Vec::new();
        let mut i: usize = 0;
        proof {
            assert(kept.deep_view() =~= dv.take(0).filter(pred));
        }
        while i < self.pastas.len()
            invariant
                i <= self.pastas.len(),
                dv == self.pastas.deep_view(),
                dv.len() == self.pastas@.len(),
                kept.deep_view() == dv.take(i as int).filter(pred),
            decreases self.pastas.len() - i,
        {
            let ghost prev = kept.deep_view();
            let p = &self.pastas[i];
            assert(dv[i as int] == p@);
            if p.expiration == 0 || p.expiration > now {
                kept.push(p.duplicated());
                proof {
                    assert(kept.deep_view() =~= prev.push(dv[i as int]));
                }
            }
            proof {
                lemma_filter_push(dv.take(i as int), pred, dv[i as int]);
                assert(dv.take(i + 1 as int).drop_last() =~= dv.take(i as int));
                assert(dv.take(i + 1 as int) =~= dv.take(i as int).push(dv[i as int]));
            }
            i = i + 1;
        }
        proof {
            assert(dv.take(dv.len() as int) =~= dv);
        }
        self.pastas = kept;
    }

    /// Sweep, then return a copy of the first record with the given id,
    /// or nothing when no live record has it.
    #[verifier::loop_isolation(false)]
    pub fn find(&mut self, id: u64, now: u64) -> (r: Option<Pasta>)
        ensures
            final(self)@ == sweep(old(self)@, now),
            match r {
                Some(p) => find_in(sweep(old(self)@, now), id) == Some(p@),
                None => find_in(sweep(old(self)@, now), id) is None,
            },
    {
        self.remove_expired(now);
        let ghost dv = self.pastas.deep_view();
        let mut i: usize = 0;
        while i < self.pastas.len()
            invariant
                i <= self.pastas.len(),
                dv == self.pastas.deep_view(),
                dv.len() == self.pastas@.len(),
                forall|k: int| 0 <= k < i ==> dv[k].id != id,
            decreases self.pastas.len() - i,
        {
            let p = &self.pastas[i];
            assert(dv[i as int] == p@);
            if p.id == id {
                proof {
                    lemma_find_in_at(dv, id, i as int);
                }
                return Some(p.duplicated());
            }
            i = i + 1;
        }
        proof {
            lemma_find_in_absent(dv, id);
        }
        None
    }

    /// Sweep, then remove the first record with the given id.
    /// Fails with `NotFound` when no live record has it.
    #[verifier::loop_isolation(false)]
    pub fn remove(&mut self, id: u64, now: u64) -> (r: Result<(), StoreError>)
        ensures
            match r {
                Ok(()) => find_in(sweep(old(self)@, now), id) is Some && final(self)@ == remove_first(
                    sweep(old(self)@, now),
                    id,
                ),
                Err(e) => e == StoreError::NotFound && find_in(
                    sweep(old(self)@, now),
                    id,
                ) is None && final(self)@ == sweep(old(self)@, now),
            },
    {
        self.remove_expired(now);
        let ghost dv = self.pastas.deep_view();
        let mut i: usize = 0;
        while i < self.pastas.len()
            invariant
                i <= self.pastas.len(),
                dv == self.pastas.deep_view(),
                dv.len() == self.pastas@.len(),
                forall|k: int| 0 <= k < i ==> dv[k].id != id,
            decreases self.pastas.len() - i,
        {
            let hit = self.pastas[i].id == id;
            assert(dv[i as int] == self.pastas@[i as int]@);
            if hit {
                proof {
                    lemma_find_in_at(dv, id, i as int);
                    lemma_remove_first_at(dv, id, i as int);
                }
                self.pastas.remove(i);
                proof {
                    assert(self.pastas.deep_view() =~= dv.remove(i as int));
                }
                return Ok(());
            }
            i = i + 1;
        }
        proof {
            lemma_find_in_absent(dv, id);
        }
        Err(StoreError::NotFound)
    }

    /// Sweep, then return copies of all surviving records, in insertion
    /// order.
    #[verifier::loop_isolation(false)]
    pub fn list(&mut self, now: u64) -> (r: Vec<Pasta>)
        ensures
            final(self)@ == sweep(old(self)@, now),
            r.deep_view() == sweep(old(self)@, now),
    {
        self.remove_expired(now);
        let ghost dv = self.pastas.deep_view();
        let mut r: Vec<Pasta> = Vec::new();
        let mut i: usize = 0;
        while i < self.pastas.len()
            invariant
                i <= self.pastas.len(),
                dv == self.pastas.deep_view(),
                dv.len() == self.pastas@.len(),
                r.deep_view() == dv.take(i as int),
            decreases self.pastas.len() - i,
        {
            let ghost prev = r.deep_view();
            r.push(self.pastas[i].duplicated());
            proof {
                assert(r.deep_view() =~= prev.push(dv[i as int]));
                assert(dv.take(i + 1 as int) =~= dv.take(i as int).push(dv[i as int]));
            }
            i = i + 1;
        }
        proof {
            assert(dv.take(dv.len() as int) =~= dv);
        }
        r
    }

    /// Create a paste: draw a random 16-bit id, stamp the creation time,
    /// classify the content, compute the deadline from the expiration
    /// choice, and append the record. No sweep runs and no uniqueness of
    /// ids is enforced. The caller persists the collection afterwards.
    pub fn create(
        &mut self,
        content: String,
        file: Option<String>,
        choice: &str,
        now: u64,
    ) -> (r: Result<u64, StoreError>)
        requires
            now <= u64::MAX - MAX_OFFSET,
        ensures
            match r {
                Ok(id) => id <= 0xFFFF && choice_offset(choice@) is Some && final(self)@ == old(
                    self,
                )@.push(
                    new_record(
                        id,
                        content@,
                        match file {
                            Some(f) => Some(f@),
                            None => None,
                        },
                        choice@,
                        now,
                    ),
                ),
                Err(e) => e == StoreError::InvalidExpirationChoice && choice_offset(
                    choice@,
                ) is None && final(self)@ == old(self)@,
            },
    {
        let ghost dv = self.pastas.deep_view();
        let expiration = match parse_expiration(choice, now) {
            Ok(e) => e,
            Err(err) => {
                return Err(err);
            },
        };
        let id = random_id();
        let (file_name, with_file) = match file {
            Some(f) => {
                if f.as_str().unicode_len() > 0 {
                    (normalize_file_name(f.as_str()), true)
                } else {
                    (no_file_name(), false)
                }
            },
            None => (no_file_name(), false),
        };
        let kind = if with_file {
            PastaKind::File
        } else if is_valid_url(content.as_str()) {
            PastaKind::Url
        } else {
            PastaKind::Text
        };
        let record = Pasta { id, content, file: file_name, created: now, kind, expiration };
        self.pastas.push(record);
        proof {
            assert(self.pastas.deep_view() =~= dv.push(
                new_record(
                    id,
                    record.content@,
                    match file {
                        Some(f) => Some(f@),
                        None => None,
                    },
                    choice@,
                    now,
                ),
            ));
        }
        Ok(id)
    }
}

/// Filtering a sequence extended by one element keeps the element exactly
/// when it satisfies the predicate.
proof fn lemma_filter_push(s: Seq<PastaV>, pred: spec_fn(PastaV) -> bool, x: PastaV)
    ensures
        s.push(x).filter(pred) == if pred(x) {
            s.filter(pred).push(x)
        } else {
            s.filter(pred)
        },
{
    reveal(Seq::filter);
    assert(s.push(x).drop_last() =~= s);
    assert(s.push(x).last() == x);
}

/// A sequence whose every element satisfies the predicate filters to
/// itself.
proof fn lemma_filter_all(s: Seq<PastaV>, pred: spec_fn(PastaV) -> bool)
    requires
        forall|i: int| 0 <= i < s.len() ==> pred(s[i]),
    ensures
        s.filter(pred) == s,
    decreases s.len(),
{
    reveal(Seq::filter);
    if s.len() > 0 {
        lemma_filter_all(s.drop_last(), pred);
        assert(s.filter(pred) =~= s);
    } else {
        assert(s.filter(pred) =~= s);
    }
}

/// The first match at position `i` is what the scan finds.
proof fn lemma_find_in_at(s: Seq<PastaV>, id: u64, i: int)
    requires
        0 <= i < s.len(),
        s[i].id == id,
        forall|k: int| 0 <= k < i ==> s[k].id != id,
    ensures
        find_in(s, id) == Some(s[i]),
    decreases i,
{
    if i > 0 {
        lemma_find_in_at(s.skip(1), id, i - 1);
    }
}

/// A sequence without the id scans to nothing.
proof fn lemma_find_in_absent(s: Seq<PastaV>, id: u64)
    requires
        forall|k: int| 0 <= k < s.len() ==> s[k].id != id,
    ensures
        find_in(s, id) is None,
    decreases s.len(),
{
    if s.len() > 0 {
        lemma_find_in_absent(s.skip(1), id);
    }
}

/// Removing the first match at position `i` takes out exactly that
/// position.
proof fn lemma_remove_first_at(s: Seq<PastaV>, id: u64, i: int)
    requires
        0 <= i < s.len(),
        s[i].id == id,
        forall|k: int| 0 <= k < i ==> s[k].id != id,
    ensures
        remove_first(s, id) == s.remove(i),
    decreases i,
{
    if i == 0 {
        assert(s.remove(0) =~= s.skip(1));
    } else {
        lemma_remove_first_at(s.skip(1), id, i - 1);
        assert(seq![s[0]] + s.skip(1).remove(i - 1) =~= s.remove(i));
    }
}

/// Law (sweep idempotence): sweeping twice at one time yields what one
/// sweep yields.
pub proof fn lemma_sweep_idempotent(s: Seq<PastaV>, now: u64)
    ensures
        sweep(sweep(s, now), now) == sweep(s, now),
{
    let pred = |p: PastaV| live(p, now);
    broadcast use vstd::seq_lib::group_filter_ensures;
    lemma_filter_all(sweep(s, now), pred);
}

/// Law (never expires): a record with the zero sentinel survives the
/// sweep at every time, however far ahead.
pub proof fn lemma_never_expires(s: Seq<PastaV>, now: u64, i: int)
    requires
        0 <= i < s.len(),
        s[i].expiration == 0,
    ensures
        sweep(s, now).contains(s[i]),
{
    let pred = |p: PastaV| live(p, now);
    broadcast use vstd::seq_lib::group_filter_ensures;
    assert(s.contains(s[i]));
    assert(pred(s[i]));
}

/// No two positions hold the id.
pub open spec fn at_most_one_id(s: Seq<PastaV>, id: u64) -> bool {
    forall|i: int, j: int| 0 <= i < j < s.len() ==> !(s[i].id == id && s[j].id == id)
}

/// No record of a removal's result carries the removed id, provided the
/// id appeared at most once.
proof fn lemma_remove_first_no_id(s: Seq<PastaV>, id: u64)
    requires
        at_most_one_id(s, id),
    ensures
        forall|k: int| 0 <= k < remove_first(s, id).len() ==> remove_first(s, id)[k].id != id,
    decreases s.len(),
{
    if s.len() > 0 {
        if s[0].id == id {
            assert forall|k: int| 0 <= k < s.skip(1).len() implies s.skip(1)[k].id != id by {
                assert(s.skip(1)[k] == s[k + 1]);
            }
        } else {
            assert(at_most_one_id(s.skip(1), id)) by {
                assert forall|i: int, j: int| 0 <= i < j < s.skip(1).len() implies !(s.skip(
                    1,
                )[i].id == id && s.skip(1)[j].id == id) by {
                    assert(s.skip(1)[i] == s[i + 1]);
                    assert(s.skip(1)[j] == s[j + 1]);
                }
            }
            lemma_remove_first_no_id(s.skip(1), id);
            assert forall|k: int| 0 <= k < remove_first(s, id).len() implies remove_first(
                s,
                id,
            )[k].id != id by {
                if k > 0 {
                    assert(remove_first(s, id)[k] == remove_first(s.skip(1), id)[k - 1]);
                }
            }
        }
    }
}

/// Every record of a removal's result stood in the sequence.
proof fn lemma_remove_first_subset(s: Seq<PastaV>, id: u64)
    ensures
        forall|k: int| 0 <= k < remove_first(s, id).len() ==> s.contains(remove_first(s, id)[k]),
    decreases s.len(),
{
    if s.len() > 0 {
        if s[0].id == id {
            assert forall|k: int| 0 <= k < s.skip(1).len() implies s.contains(s.skip(1)[k]) by {
                assert(s.skip(1)[k] == s[k + 1]);
            }
        } else {
            lemma_remove_first_subset(s.skip(1), id);
            assert forall|k: int| 0 <= k < remove_first(s, id).len() implies s.contains(
                remove_first(s, id)[k],
            ) by {
                if k == 0 {
                    assert(remove_first(s, id)[0] == s[0]);
                } else {
                    let r = remove_first(s.skip(1), id);
                    assert(remove_first(s, id)[k] == r[k - 1]);
                    assert(s.skip(1).contains(r[k - 1]));
                    let w = choose|w: int| 0 <= w < s.skip(1).len() && s.skip(1)[w] == r[k - 1];
                    assert(s[w + 1] == r[k - 1]);
                }
            }
        }
    }
}

/// Law (removal): after removing an id that the swept collection held at
/// most once, a lookup of that id at the same time finds nothing.
pub proof fn lemma_remove_then_find(s: Seq<PastaV>, id: u64, now: u64)
    requires
        at_most_one_id(sweep(s, now), id),
    ensures
        find_in(sweep(remove_first(sweep(s, now), id), now), id) is None,
{
    let pred = |p: PastaV| live(p, now);
    let sw = sweep(s, now);
    broadcast use vstd::seq_lib::group_filter_ensures;
    let r = remove_first(sw, id);
    lemma_remove_first_no_id(sw, id);
    lemma_remove_first_subset(sw, id);
    assert forall|k: int| 0 <= k < r.len() implies pred(r[k]) by {
        let w = choose|w: int| 0 <= w < sw.len() && sw[w] == r[k];
        assert(pred(sw[w]));
    }
    lemma_filter_all(r, pred);
    lemma_find_in_absent(r, id);
}

/// Law (creation visibility): after a creation appends a record, a
/// listing at any time the record is still live shows it, and every
/// other live record stays shown. Distinct creations answer with the ids
/// they return; the serialization of concurrent calls is the caller's
/// single lock over the store.
pub proof fn lemma_create_presence(s: Seq<PastaV>, p: PastaV, now: u64)
    requires
        live(p, now),
    ensures
        sweep(s.push(p), now).contains(p),
        forall|q: PastaV| s.contains(q) && live(q, now) ==> sweep(s.push(p), now).contains(q),
{
    broadcast use vstd::seq_lib::group_filter_ensures;

    let pred = |q: PastaV| live(q, now);
    assert(s.push(p)[s.len() as int] == p);
    assert(s.push(p).contains(p));
    assert(sweep(s.push(p), now).contains(p)) by {
        let w = choose|w: int| 0 <= w < s.push(p).len() && s.push(p)[w] == p;
        assert(pred(s.push(p)[w]));
        assert(s.push(p).filter(pred).contains(s.push(p)[w]));
    }
    assert forall|q: PastaV| s.contains(q) && live(q, now) implies sweep(
        s.push(p),
        now,
    ).contains(q) by {
        let w = choose|w: int| 0 <= w < s.len() && s[w] == q;
        assert(s.push(p)[w] == q);
        assert(pred(s.push(p)[w]));
        assert(s.push(p).filter(pred).contains(s.push(p)[w]));
    }
}

} // verus!

//! A cache of shared resources, filled on demand by a loader.

use std::rc::Rc;
use vstd::hash_map::StringHashMap;
use vstd::prelude::*;

verus! {

/// Something that can produce a resource of type `R` from a description of
/// where to find it.
pub trait ResourceLoader<'l, R> {
    /// The description that the loader works from, such as a path.
    type Args: ?Sized;

    /// Produces the resource that `data` describes, or says why it cannot.
    fn load(&'l self, data: &Self::Args) -> Result<R, String>;
}

/// What the cache holds: for each key that was loaded, the shared handle.
pub type Entries<R> = Map<Seq<char>, Rc<R>>;

/// One request for `key` against the entries `before`, where `fetched` is
/// what the loader produces if it is consulted: the entries afterwards and
/// the answer.
pub open spec fn load_step<R>(before: Entries<R>, key: Seq<char>, fetched: Result<R, String>) -> (
    Entries<R>,
    Result<Rc<R>, String>,
) {
    if before.contains_key(key) {
        (before, Ok(before[key]))
    } else {
        match fetched {
            Ok(resource) => (before.insert(key, Rc::new(resource)), Ok(Rc::new(resource))),
            Err(reason) => (before, Err(reason)),
        }
    }
}

/// A cache of resources by name. A resource is loaded when its name is
/// first asked for and stays for as long as the cache lives; whoever asks
/// for the name gets a handle to that one resource.
#[verifier::reject_recursive_types(R)]
pub struct ResourceManager<'l, R, L> where L: ResourceLoader<'l, R> {
    loader: &'l L,
    cache: StringHashMap<Rc<R>>,
}

impl<'l, R, L> View for ResourceManager<'l, R, L> where L: ResourceLoader<'l, R> {
    type V = Entries<R>;

    closed spec fn view(&self) -> Entries<R> {
        self.cache@
    }
}

/// Calls `Rc::clone`, which makes another handle to the allocation that
/// `handle` points to and copies nothing: the new handle stands for the
/// value that `handle` stands for.
#[verifier::external_body]
fn share<R>(handle: &Rc<R>) -> (other: Rc<R>)
    ensures
        other == *handle,
{
    Rc::clone(handle)
}

impl<'l, R, L> ResourceManager<'l, R, L> where L: ResourceLoader<'l, R> {
    /// The loader that the cache turns to on a miss.
    pub closed spec fn loader(&self) -> &'l L {
        self.loader
    }

    /// An empty cache that loads with `loader`.
    pub fn new(loader: &'l L) -> (manager: Self)
        ensures
            manager@ == Entries::<R>::empty(),
            manager.loader() == loader,
    {
        ResourceManager { loader, cache: StringHashMap::new() }
    }

    /// A handle to the resource that is cached under `details`, if one
    /// is. The loader is not consulted.
    pub fn cached(&self, details: &str) -> (found: Option<Rc<R>>)
        ensures
            found == if self@.contains_key(details@) {
                Some(self@[details@])
            } else {
                None
            },
    {
        match self.cache.get(details) {
            Some(handle) => Some(share(handle)),
            None => None,
        }
    }

    /// Answers a request for `details`, given what the loader produced for
    /// it: the cached handle where there is one, and then `fetched` is
    /// dropped; else a handle to the fetched resource, which is cached from
    /// now on, or the loader's failure, and then nothing is cached.
    pub fn resolve(&mut self, details: &str, fetched: Result<R, String>) -> (result: Result<
        Rc<R>,
        String,
    >)
        ensures
            (final(self)@, result) == load_step(old(self)@, details@, fetched),
            final(self).loader() == old(self).loader(),
    {
        match self.cached(details) {
            Some(handle) => Ok(handle),
            None => match fetched {
                Ok(resource) => {
                    let handle = Rc::new(resource);
                    self.cache.insert(details.to_owned(), share(&handle));
                    Ok(handle)
                },
                Err(reason) => Err(reason),
            },
        }
    }

    /// Whether a call of `load` for `details` that starts with the manager
    /// `before` may leave the manager `after` and give `result`: on a hit
    /// the cached handle and no change, on a miss what `load_step` makes
    /// of something that the loader may return for `details`.
    pub open spec fn loads(
        before: Self,
        details: &str,
        after: Self,
        result: Result<Rc<R>, String>,
    ) -> bool where L: ResourceLoader<'l, R, Args = str> {
        &&& after.loader() == before.loader()
        &&& if before@.contains_key(details@) {
            after@ == before@ && result == Ok::<Rc<R>, String>(before@[details@])
        } else {
            exists|fetched: Result<R, String>| #[trigger]
                call_ensures(L::load, (before.loader(), details), fetched) && (after@, result)
                    == load_step(before@, details@, fetched)
        }
    }

    /// Hands out the resource that `details` names: the cached handle where
    /// there is one, else what the loader makes of `details`, which is then
    /// cached. A failure of the loader is passed on and nothing is cached.
    pub fn load(&mut self, details: &str) -> (result: Result<Rc<R>, String>) where
        L: ResourceLoader<'l, R, Args = str>,

        ensures
            Self::loads(*old(self), details, *final(self), result),
    {
        match self.cached(details) {
            Some(handle) => Ok(handle),
            None => {
                let fetched = self.loader.load(details);
                self.resolve(details, fetched)
            },
        }
    }
}

/// A request to the cache: the key, and what the loader produces for it if
/// it is consulted.
pub type Request<R> = (Seq<char>, Result<R, String>);

/// The entries after a run of requests, one after the other.
pub open spec fn entries_after<R>(before: Entries<R>, requests: Seq<Request<R>>) -> Entries<R>
    decreases requests.len(),
{
    if requests.len() == 0 {
        before
    } else {
        load_step(
            entries_after(before, requests.drop_last()),
            requests.last().0,
            requests.last().1,
        ).0
    }
}

/// The answer to request `i` of a run of requests.
pub open spec fn answer_to<R>(before: Entries<R>, requests: Seq<Request<R>>, i: int) -> Result<
    Rc<R>,
    String,
> {
    load_step(entries_after(before, requests.take(i)), requests[i].0, requests[i].1).1
}

/// How often a run of requests consults the loader for `key`: once for
/// each request for `key` that finds no entry.
pub open spec fn loader_calls<R>(
    before: Entries<R>,
    requests: Seq<Request<R>>,
    key: Seq<char>,
) -> nat
    decreases requests.len(),
{
    if requests.len() == 0 {
        0
    } else {
        let earlier = loader_calls(before, requests.drop_last(), key);
        if requests.last().0 == key && !entries_after(before, requests.drop_last()).contains_key(
            key,
        ) {
            earlier + 1
        } else {
            earlier
        }
    }
}

/// Whether the loader succeeds for every request for `key`.
pub open spec fn never_fails<R>(requests: Seq<Request<R>>, key: Seq<char>) -> bool {
    forall|i: int|
        0 <= i < requests.len() && requests[i].0 == key ==> (#[trigger] requests[i]).1 is Ok
}

/// Whether one of the requests is for `key`.
pub open spec fn asks_for<R>(requests: Seq<Request<R>>, key: Seq<char>) -> bool {
    exists|i: int| 0 <= i < requests.len() && (#[trigger] requests[i]).0 == key
}

/// A second request for a key whose first request succeeded is answered
/// with the same handle and changes nothing, whatever the loader would
/// produce.
pub proof fn lemma_load_twice<R>(
    before: Entries<R>,
    key: Seq<char>,
    first: Result<R, String>,
    second: Result<R, String>,
)
    requires
        load_step(before, key, first).1 is Ok,
    ensures
        load_step(load_step(before, key, first).0, key, second) == load_step(before, key, first),
{
}

/// A request that the loader fails leaves the entries as they were, hands
/// on the loader's reason, and the key still has no entry.
pub proof fn lemma_failed_load<R>(before: Entries<R>, key: Seq<char>, reason: String)
    requires
        !before.contains_key(key),
    ensures
        load_step(before, key, Err::<R, String>(reason)) == (
            before,
            Err::<Rc<R>, String>(reason),
        ),
        !load_step(before, key, Err::<R, String>(reason)).0.contains_key(key),
{
}

/// An entry stays, with its handle, through every later request.
pub proof fn lemma_entry_stays<R>(
    before: Entries<R>,
    requests: Seq<Request<R>>,
    i: int,
    j: int,
    key: Seq<char>,
)
    requires
        0 <= i <= j <= requests.len(),
        entries_after(before, requests.take(i)).contains_key(key),
    ensures
        entries_after(before, requests.take(j)).contains_key(key),
        entries_after(before, requests.take(j))[key] == entries_after(
            before,
            requests.take(i),
        )[key],
    decreases j - i,
{
    if i < j {
        lemma_entry_stays(before, requests, i, j - 1, key);
        assert(requests.take(j).drop_last() == requests.take(j - 1));
    }
}

/// Of two requests for one key, the later is answered with the handle that
/// the earlier was answered with, if that one succeeded.
pub proof fn lemma_same_handle<R>(before: Entries<R>, requests: Seq<Request<R>>, i: int, j: int)
    requires
        0 <= i < j < requests.len(),
        requests[i].0 == requests[j].0,
        answer_to(before, requests, i) is Ok,
    ensures
        answer_to(before, requests, j) == answer_to(before, requests, i),
{
    let key = requests[i].0;
    assert(requests.take(i + 1).drop_last() == requests.take(i));
    assert(requests.take(i + 1).last() == requests[i]);
    lemma_entry_stays(before, requests, i + 1, j, key);
}

/// Where the loader never fails for a key, the key has an entry after a
/// run of requests exactly if it had one before or was asked for.
pub proof fn lemma_cached_iff_asked<R>(
    before: Entries<R>,
    requests: Seq<Request<R>>,
    key: Seq<char>,
)
    requires
        never_fails(requests, key),
    ensures
        entries_after(before, requests).contains_key(key) <==> before.contains_key(key)
            || asks_for(requests, key),
    decreases requests.len(),
{
    if requests.len() > 0 {
        let earlier = requests.drop_last();
        assert(never_fails(earlier, key)) by {
            assert forall|i: int| 0 <= i < earlier.len() && earlier[i].0 == key implies (
            #[trigger] earlier[i]).1 is Ok by {
                assert(earlier[i] == requests[i]);
            }
        }
        lemma_cached_iff_asked(before, earlier, key);
        if asks_for(earlier, key) {
            let i = choose|i: int| 0 <= i < earlier.len() && (#[trigger] earlier[i]).0 == key;
            assert(requests[i] == earlier[i]);
        }
        if asks_for(requests, key) {
            let i = choose|i: int| 0 <= i < requests.len() && (#[trigger] requests[i]).0 == key;
            if i < earlier.len() {
                assert(earlier[i] == requests[i]);
            } else {
                assert(requests[i] == requests.last());
            }
        }
        if requests.last().0 == key {
            assert(requests[requests.len() - 1].1 is Ok);
        }
    }
}

/// Where the loader never fails for a key, a run of requests consults it
/// for that key exactly once if the key had no entry and was asked for,
/// and not at all otherwise, however often the key was asked for.
pub proof fn lemma_loaded_once<R>(before: Entries<R>, requests: Seq<Request<R>>, key: Seq<char>)
    requires
        never_fails(requests, key),
    ensures
        loader_calls(before, requests, key) == if !before.contains_key(key) && asks_for(
            requests,
            key,
        ) {
            1nat
        } else {
            0nat
        },
    decreases requests.len(),
{
    if requests.len() > 0 {
        let earlier = requests.drop_last();
        assert(never_fails(earlier, key)) by {
            assert forall|i: int| 0 <= i < earlier.len() && earlier[i].0 == key implies (
            #[trigger] earlier[i]).1 is Ok by {
                assert(earlier[i] == requests[i]);
            }
        }
        lemma_loaded_once(before, earlier, key);
        lemma_cached_iff_asked(before, earlier, key);
        if asks_for(earlier, key) {
            let i = choose|i: int| 0 <= i < earlier.len() && (#[trigger] earlier[i]).0 == key;
            assert(requests[i] == earlier[i]);
        }
        if asks_for(requests, key) && !asks_for(earlier, key) {
            let i = choose|i: int| 0 <= i < requests.len() && (#[trigger] requests[i]).0 == key;
            if i < earlier.len() {
                assert(earlier[i] == requests[i]);
            }
        }
        if requests.last().0 == key {
            assert(requests[requests.len() - 1] == requests.last());
        }
    }
}

} // verus!

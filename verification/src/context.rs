use vstd::hash_map::StringHashMap;
use vstd::prelude::*;

verus! {

/// Bindings from names to values: what a template's references are resolved against.
pub struct Context {
    map: StringHashMap<String>,
}

impl View for Context {
    type V = Map<Seq<char>, Seq<char>>;

    closed spec fn view(&self) -> Map<Seq<char>, Seq<char>> {
        self.map@.map_values(|value: String| value@)
    }
}

impl Context {
    /// A context that binds no name.
    pub fn new() -> (ctx: Context)
        ensures
            ctx@ == Map::<Seq<char>, Seq<char>>::empty(),
    {
        let ctx = Context { map: StringHashMap::new() };
        assert(ctx@ =~= Map::<Seq<char>, Seq<char>>::empty());
        ctx
    }

    /// Binds `name` to `value`, in place of what `name` was bound to before.
    pub fn insert(&mut self, name: String, value: String)
        ensures
            final(self)@ == old(self)@.insert(name@, value@),
    {
        self.map.insert(name, value);
        assert(self@ =~= old(self)@.insert(name@, value@));
    }

    /// The value that `name` is bound to.
    pub fn get<'a>(&'a self, name: &str) -> (found: Option<&'a String>)
        ensures
            match found {
                Some(value) => self@.contains_key(name@) && value@ == self@[name@],
                None => !self@.contains_key(name@),
            },
    {
        self.map.get(name)
    }
}

} // verus!

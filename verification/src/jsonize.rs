use crate::text::{arrow_from, path_parts, path_segments, texts};
use vstd::prelude::*;

verus! {

/// What a JSON text holds under a key, read through the json crate: whether
/// the member is an object, its text when it is a string, its `Display`
/// text, and its JSON text (`dump`).
pub struct JsonMember {
    pub is_object: bool,
    pub string: Option<String>,
    pub shown: String,
    pub dumped: String,
}

/// A member as plain values.
pub struct JsonMemberView {
    pub is_object: bool,
    pub string: Option<Seq<char>>,
    pub shown: Seq<char>,
    pub dumped: Seq<char>,
}

impl View for JsonMember {
    type V = JsonMemberView;

    open spec fn view(&self) -> JsonMemberView {
        JsonMemberView {
            is_object: self.is_object,
            string: match self.string {
                Some(s) => Some(s@),
                None => None,
            },
            shown: self.shown@,
            dumped: self.dumped@,
        }
    }
}

/// The member under `key` of the value that `json::parse` reads from
/// `text` (`None` when `text` is not JSON), as `value[key]` gives it.
pub uninterp spec fn json_member(text: Seq<char>, key: Seq<char>) -> Option<JsonMemberView>;

/// The JSON text that `dump` writes for the value that `json::parse` reads
/// from `text` (`None` when `text` is not JSON).
pub uninterp spec fn json_dump(text: Seq<char>) -> Option<Seq<char>>;

/// Whether `text` is JSON, as `json::parse` reads it.
pub open spec fn is_json(text: Seq<char>) -> bool {
    json_member(text, Seq::empty()) is Some
}

/// The member under `key` of a JSON text.
pub open spec fn member(text: Seq<char>, key: Seq<char>) -> JsonMemberView {
    json_member(text, key)->0
}

/// Reads the member under `key` of the JSON text `text` with the json crate:
/// `json::parse`, then `value[key]` with `is_object`, `as_str`, `to_string`
/// and `dump`. Trusted: the result is there exactly when the text parses
/// (which does not depend on the key), and then it is the named member; the
/// `dump` of a value parses again. The member itself is only named.
#[verifier::external_body]
pub fn read_json_member(text: &str, key: &str) -> (r: Option<JsonMember>)
    ensures
        r is Some <==> is_json(text@),
        r matches Some(m) ==> json_member(text@, key@) == Some(m@),
        r is None ==> json_member(text@, key@) is None,
        r matches Some(m) ==> is_json(m@.dumped),
{
    match json::parse(text) {
        Ok(value) => {
            let m = &value[key];
            Some(
                JsonMember {
                    is_object: m.is_object(),
                    string: m.as_str().map(String::from),
                    shown: m.to_string(),
                    dumped: m.dump(),
                },
            )
        },
        Err(_) => None,
    }
}

/// The JSON text of the value in `text` (`json::parse`, then `dump`).
/// Trusted: the result is there exactly when the text parses, is the named
/// dump, and parses again.
#[verifier::external_body]
pub fn dump_json(text: &str) -> (r: Option<String>)
    ensures
        r is Some <==> is_json(text@),
        r matches Some(d) ==> json_dump(text@) == Some(d@),
        r is None ==> json_dump(text@) is None,
        r matches Some(d) ==> is_json(d@),
{
    match json::parse(text) {
        Ok(value) => Some(value.dump()),
        Err(_) => None,
    }
}

/// The value that a path of keys leads to from a JSON text: each key takes
/// the member under it (null when there is none).
pub open spec fn path_target(text: Seq<char>, keys: Seq<Seq<char>>) -> Seq<char>
    decreases keys.len(),
{
    if keys.len() == 0 {
        text
    } else {
        path_target(member(text, keys[0]).dumped, keys.drop_first())
    }
}

/// Whether each key of a path leads to an object, from a JSON text.
pub open spec fn path_present(text: Seq<char>, keys: Seq<Seq<char>>) -> bool
    decreases keys.len(),
{
    keys.len() == 0 || (member(text, keys[0]).is_object && path_present(
        member(text, keys[0]).dumped,
        keys.drop_first(),
    ))
}

/// A path with no `->` is a single key: following it is taking the member
/// under that key, and it is present exactly when that member is an object.
pub proof fn lemma_single_key_path(text: Seq<char>, key: Seq<char>)
    requires
        arrow_from(key, 0) == key.len(),
    ensures
        path_parts(key) == seq![key],
        path_target(text, path_parts(key)) == member(text, key).dumped,
        path_present(text, path_parts(key)) == member(text, key).is_object,
{
    assert(path_parts(key) == seq![key]);
    assert(seq![key].drop_first() =~= Seq::<Seq<char>>::empty());
    assert(path_target(member(text, key).dumped, Seq::<Seq<char>>::empty()) == member(text, key).dumped);
    assert(path_present(member(text, key).dumped, Seq::<Seq<char>>::empty()));
}

/// Following a path in two pieces is following the whole path: the target
/// of `a + b` is the target of `b` from the target of `a`, and `a + b` is
/// present when `a` is and `b` is from where `a` leads.
pub proof fn lemma_path_concat(text: Seq<char>, a: Seq<Seq<char>>, b: Seq<Seq<char>>)
    ensures
        path_target(text, a + b) == path_target(path_target(text, a), b),
        path_present(text, a + b) == (path_present(text, a) && path_present(
            path_target(text, a),
            b,
        )),
    decreases a.len(),
{
    if a.len() == 0 {
        assert(a + b =~= b);
    } else {
        let next = member(text, a[0]).dumped;
        lemma_path_concat(next, a.drop_first(), b);
        assert((a + b).drop_first() =~= a.drop_first() + b);
        assert((a + b)[0] == a[0]);
    }
}

/// Lookups by key and by path (`a->b->c`) in a JSON value.
pub trait Jsonize: Sized {
    /// The member under `key` (null when there is none).
    fn get_key(&self, key: &str) -> Self;

    /// The value that the path leads to.
    fn get_path(&self, path: &str) -> Self;

    /// Whether the member under `key` is an object.
    fn has_key(&self, key: &str) -> bool;

    /// Whether each key of the path leads to an object.
    fn has_path(&self, path: &str) -> bool;
}

/// A JSON value, held as the JSON text that the json crate writes for it.
pub struct Json {
    text: String,
}

impl View for Json {
    type V = Seq<char>;

    closed spec fn view(&self) -> Seq<char> {
        self.text@
    }
}

impl Json {
    #[verifier::type_invariant]
    spec fn parses(self) -> bool {
        is_json(self.text@)
    }

    /// The JSON text of the value.
    pub fn dump(&self) -> (s: String)
        ensures
            s@ == self@,
    {
        self.text.clone()
    }

    /// The member under `key` (null when there is none), read whole.
    pub fn member(&self, key: &str) -> (m: JsonMember)
        ensures
            m@ == member(self@, key@),
            is_json(m@.dumped),
    {
        proof {
            use_type_invariant(self);
        }
        read_json_member(self.text.as_str(), key).unwrap()
    }
}

/// The value that JSON text `data` holds; `data` must be JSON.
pub fn from_str(data: &str) -> (j: Json)
    requires
        is_json(data@),
    ensures
        Some(j@) == json_dump(data@),
{
    Json { text: dump_json(data).unwrap() }
}

/// The value that `data` holds, when it is JSON.
pub fn parse_json(data: &str) -> (r: Option<Json>)
    ensures
        r is Some <==> is_json(data@),
        r matches Some(j) ==> Some(j@) == json_dump(data@),
{
    match dump_json(data) {
        Some(_) => Some(from_str(data)),
        None => None,
    }
}

impl Jsonize for Json {
    fn get_key(&self, key: &str) -> (j: Json)
        ensures
            j@ == member(self@, key@).dumped,
    {
        let m = self.member(key);
        Json { text: m.dumped }
    }

    fn get_path(&self, path: &str) -> (j: Json)
        ensures
            j@ == path_target(self@, path_parts(path@)),
    {
        proof {
            use_type_invariant(self);
        }
        let keys = path_segments(path);
        let mut text = self.text.clone();
        let mut i: usize = 0;
        assert(texts(keys@).skip(0) =~= texts(keys@));
        while i < keys.len()
            invariant
                i <= keys@.len(),
                is_json(text@),
                path_target(self@, texts(keys@)) == path_target(text@, texts(keys@).skip(i as int)),
            decreases keys@.len() - i,
        {
            let m = read_json_member(text.as_str(), keys[i].as_str()).unwrap();
            assert(texts(keys@).skip(i as int).drop_first() =~= texts(keys@).skip(i + 1));
            assert(texts(keys@).skip(i as int)[0] == keys@[i as int]@);
            text = m.dumped;
            i = i + 1;
        }
        assert(texts(keys@).skip(i as int) =~= Seq::<Seq<char>>::empty());
        Json { text }
    }

    fn has_key(&self, key: &str) -> (r: bool)
        ensures
            r == member(self@, key@).is_object,
    {
        self.member(key).is_object
    }

    fn has_path(&self, path: &str) -> (r: bool)
        ensures
            r == path_present(self@, path_parts(path@)),
    {
        proof {
            use_type_invariant(self);
        }
        let keys = path_segments(path);
        let mut text = self.text.clone();
        let mut i: usize = 0;
        assert(texts(keys@).skip(0) =~= texts(keys@));
        while i < keys.len()
            invariant
                i <= keys@.len(),
                is_json(text@),
                texts(keys@) == path_parts(path@),
                path_present(self@, texts(keys@)) == path_present(text@, texts(keys@).skip(i as int)),
            decreases keys@.len() - i,
        {
            let m = read_json_member(text.as_str(), keys[i].as_str()).unwrap();
            assert(texts(keys@).skip(i as int).drop_first() =~= texts(keys@).skip(i + 1));
            assert(texts(keys@).skip(i as int)[0] == keys@[i as int]@);
            if !m.is_object {
                assert(!path_present(text@, texts(keys@).skip(i as int)));
                return false;
            }
            text = m.dumped;
            i = i + 1;
        }
        assert(texts(keys@).skip(i as int) =~= Seq::<Seq<char>>::empty());
        true
    }
}

} // verus!

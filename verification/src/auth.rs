//! API keys.

use vstd::prelude::*;

verus! {

/// The keys that are accepted. Without keys everything is.
#[derive(Debug, Clone)]
pub struct AuthState {
    pub api_keys: Vec<String>,
}

/// Whether the text is among the keys.
pub open spec fn among(keys: Seq<String>, text: Seq<char>) -> bool {
    exists|i: int| 0 <= i < keys.len() && (#[trigger] keys[i])@ == text
}

fn is_among(keys: &Vec<String>, key: &String) -> (r: bool)
    ensures
        r == among(keys@, key@),
{
    let mut i: usize = 0;
    while i < keys.len()
        invariant
            i <= keys@.len(),
            forall|k: int| 0 <= k < i ==> (#[trigger] keys@[k])@ != key@,
        decreases keys@.len() - i,
    {
        if keys[i] == *key {
            assert(keys@[i as int]@ == key@);
            return true;
        }
        i += 1;
    }
    false
}

impl AuthState {
    /// The state with the keys, each once.
    pub fn new(api_keys: Vec<String>) -> (r: Self)
        ensures
            forall|text: Seq<char>| #[trigger]
                among(r.api_keys@, text) <==> among(api_keys@, text),
            forall|i: int, j: int|
                0 <= i < j < r.api_keys@.len() ==> (#[trigger] r.api_keys@[i])@ != (
                #[trigger] r.api_keys@[j])@,
    {
        let mut keys: Vec<String> = Vec::new();
        let mut i: usize = 0;
        while i < api_keys.len()
            invariant
                i <= api_keys@.len(),
                forall|k: int| 0 <= k < i ==> among(keys@, #[trigger] api_keys@[k]@),
                forall|k: int| 0 <= k < keys@.len() ==> among(api_keys@, #[trigger] keys@[k]@),
                forall|a: int, b: int|
                    0 <= a < b < keys@.len() ==> (#[trigger] keys@[a])@ != (#[trigger] keys@[b])@,
            decreases api_keys@.len() - i,
        {
            let key = &api_keys[i];
            if !is_among(&keys, key) {
                let ghost before = keys@;
                keys.push(key.clone());
                proof {
                    assert forall|k: int| 0 <= k < i implies among(keys@, #[trigger] api_keys@[k]@) by {
                        assert(among(before, api_keys@[k]@));
                        let j = choose|j: int|
                            0 <= j < before.len() && (#[trigger] before[j])@ == api_keys@[k]@;
                        assert(keys@[j]@ == api_keys@[k]@);
                    }
                    assert(keys@[keys@.len() - 1]@ == api_keys@[i as int]@);
                    assert forall|k: int| 0 <= k < keys@.len() implies among(
                        api_keys@,
                        #[trigger] keys@[k]@,
                    ) by {
                        if k < before.len() {
                            assert(keys@[k] == before[k]);
                        }
                    }
                    assert forall|a: int, b: int| 0 <= a < b < keys@.len() implies (
                    #[trigger] keys@[a])@ != (#[trigger] keys@[b])@ by {
                        assert(keys@[a] == before[a]);
                        if b < before.len() {
                            assert(keys@[b] == before[b]);
                        }
                    }
                }
            }
            i += 1;
        }
        proof {
            assert forall|text: Seq<char>| #[trigger] among(keys@, text) <==> among(
                api_keys@,
                text,
            ) by {
                if among(api_keys@, text) {
                    let k = choose|k: int| 0 <= k < api_keys@.len() && (#[trigger] api_keys@[k])@ == text;
                    assert(among(keys@, api_keys@[k]@));
                }
                if among(keys@, text) {
                    let k = choose|k: int| 0 <= k < keys@.len() && (#[trigger] keys@[k])@ == text;
                    assert(among(api_keys@, keys@[k]@));
                }
            }
        }
        Self { api_keys: keys }
    }

    /// Whether a key is needed.
    pub fn is_enabled(&self) -> (r: bool)
        ensures
            r == (self.api_keys@.len() > 0),
    {
        self.api_keys.len() > 0
    }

    /// The key of a request: that of its header, or, without one, that of its
    /// query.
    pub open spec fn given(header_key: Option<&str>, query_key: Option<&str>) -> Option<Seq<char>> {
        match (header_key, query_key) {
            (Some(key), _) => Some(key@),
            (None, Some(key)) => Some(key@),
            (None, None) => None,
        }
    }

    /// Whether a request with the keys is accepted.
    pub open spec fn accepts(self, header_key: Option<&str>, query_key: Option<&str>) -> bool {
        ||| self.api_keys@.len() == 0
        ||| AuthState::given(header_key, query_key) matches Some(key) && among(self.api_keys@, key)
    }

    fn extract_key(header_key: Option<&str>, query_key: Option<&str>) -> (r: Option<String>)
        ensures
            match r {
                Some(key) => AuthState::given(header_key, query_key) == Some(key@),
                None => AuthState::given(header_key, query_key) is None,
            },
    {
        match header_key {
            Some(key) => Some(key.to_owned()),
            None => match query_key {
                Some(key) => Some(key.to_owned()),
                None => None,
            },
        }
    }

    /// Whether a request with these keys, in its header and in its query, is
    /// accepted.
    pub fn check(&self, header_key: Option<&str>, query_key: Option<&str>) -> (r: bool)
        ensures
            r == self.accepts(header_key, query_key),
    {
        if !self.is_enabled() {
            return true;
        }
        match AuthState::extract_key(header_key, query_key) {
            Some(key) => is_among(&self.api_keys, &key),
            None => false,
        }
    }
}

/// Which requests are accepted. Without keys every one is. With keys a request is where
/// the key that it gives is one of them: the key of its header, and only without one the
/// key of its query. A request that gives none is not.
pub proof fn law_accepts(auth: AuthState, header_key: Option<&str>, query_key: Option<&str>)
    ensures
        auth.api_keys@.len() == 0 ==> auth.accepts(header_key, query_key),
        auth.api_keys@.len() > 0 ==> {
            &&& header_key matches Some(key) ==> (auth.accepts(header_key, query_key) <==> exists|
                i: int,
            |
                0 <= i < auth.api_keys@.len() && (#[trigger] auth.api_keys@[i])@ == key@)
            &&& header_key is None ==> (query_key matches Some(key) ==> (auth.accepts(
                header_key,
                query_key,
            ) <==> exists|i: int|
                0 <= i < auth.api_keys@.len() && (#[trigger] auth.api_keys@[i])@ == key@))
            &&& header_key is None && query_key is None ==> !auth.accepts(header_key, query_key)
        },
{
}

} // verus!

//! The in-memory store: topics, each holding keys with string values.
//!
//! Both levels are association lists whose keys occur once; their views are
//! maps from the characters of a key to what it holds.
use vstd::prelude::*;
use vstd::string::StringExecFns;

verus! {

/// What a cache holds: for each topic name, a map from key to value.
pub type CacheView = Map<Seq<char>, Map<Seq<char>, Seq<char>>>;

/// The keys of an association list occur at most once (compared by their characters).
pub open spec fn keys_distinct<V>(s: Seq<(String, V)>) -> bool {
    forall|i: int, j: int|
        0 <= i < s.len() && 0 <= j < s.len() && #[trigger] s[i].0@ == #[trigger] s[j].0@ ==> i == j
}

/// Some entry of the list has key `k`.
pub open spec fn has_key<V>(s: Seq<(String, V)>, k: Seq<char>) -> bool {
    exists|i: int| 0 <= i < s.len() && #[trigger] s[i].0@ == k
}

/// The position of the entry with key `k`.
pub open spec fn key_index<V>(s: Seq<(String, V)>, k: Seq<char>) -> int {
    choose|i: int| 0 <= i < s.len() && #[trigger] s[i].0@ == k
}

/// The map that an association list of strings stands for.
pub open spec fn string_map(s: Seq<(String, String)>) -> Map<Seq<char>, Seq<char>> {
    Map::new(|k: Seq<char>| has_key(s, k), |k: Seq<char>| s[key_index(s, k)].1@)
}

/// The result of a `put`: a value is stored only under a key that the topic
/// does not hold yet; the topic is created when it is missing.
pub open spec fn put_spec(m: CacheView, topic: Seq<char>, key: Seq<char>, value: Seq<char>) -> CacheView {
    if m.contains_key(topic) {
        if m[topic].contains_key(key) {
            m
        } else {
            m.insert(topic, m[topic].insert(key, value))
        }
    } else {
        m.insert(topic, Map::empty().insert(key, value))
    }
}

/// The answer of a `get`.
pub open spec fn get_spec(m: CacheView, topic: Seq<char>, key: Seq<char>) -> Result<Seq<char>, Seq<char>> {
    if !m.contains_key(topic) {
        Err("Topic not found: "@ + topic)
    } else if !m[topic].contains_key(key) {
        Err("Value not found: "@ + topic)
    } else {
        Ok(m[topic][key])
    }
}

/// The cache after a `delete`: the key leaves an existing topic, which stays.
pub open spec fn delete_spec(m: CacheView, topic: Seq<char>, key: Seq<char>) -> CacheView {
    if m.contains_key(topic) {
        m.insert(topic, m[topic].remove(key))
    } else {
        m
    }
}

/// The answer of a `delete`.
pub open spec fn delete_result_spec(m: CacheView, topic: Seq<char>) -> Result<(), Seq<char>> {
    if m.contains_key(topic) {
        Ok(())
    } else {
        Err("Topic '"@ + topic + "' not found"@)
    }
}

/// A result of strings, taken by the characters of each.
pub open spec fn string_result_view(r: Result<String, String>) -> Result<Seq<char>, Seq<char>> {
    match r {
        Ok(v) => Ok(v@),
        Err(e) => Err(e@),
    }
}

/// A result with a string error, taken by the characters of the error.
pub open spec fn unit_result_view(r: Result<(), String>) -> Result<(), Seq<char>> {
    match r {
        Ok(()) => Ok(()),
        Err(e) => Err(e@),
    }
}

proof fn lemma_key_index<V>(s: Seq<(String, V)>, i: int)
    requires
        keys_distinct(s),
        0 <= i < s.len(),
    ensures
        has_key(s, s[i].0@),
        key_index(s, s[i].0@) == i,
{
    assert(s[i].0@ == s[i].0@);
}

proof fn lemma_push<V>(s: Seq<(String, V)>, e: (String, V))
    requires
        keys_distinct(s),
        !has_key(s, e.0@),
    ensures
        keys_distinct(s.push(e)),
        forall|k: Seq<char>| has_key(s.push(e), k) <==> (has_key(s, k) || k == e.0@),
        forall|k: Seq<char>| has_key(s, k) ==> key_index(s.push(e), k) == key_index(s, k),
        key_index(s.push(e), e.0@) == s.len(),
{
    let t = s.push(e);
    assert forall|i: int, j: int|
        0 <= i < t.len() && 0 <= j < t.len() && #[trigger] t[i].0@ == #[trigger] t[j].0@ implies i == j by {
        if i < s.len() && j < s.len() {
            assert(s[i].0@ == s[j].0@);
        } else if i < s.len() {
            assert(s[i].0@ == e.0@);
        } else if j < s.len() {
            assert(s[j].0@ == e.0@);
        }
    }
    assert forall|k: Seq<char>| has_key(t, k) <==> (has_key(s, k) || k == e.0@) by {
        if has_key(t, k) {
            let i = choose|i: int| 0 <= i < t.len() && #[trigger] t[i].0@ == k;
            if i < s.len() {
                assert(s[i].0@ == k);
            }
        }
        if has_key(s, k) {
            let i = choose|i: int| 0 <= i < s.len() && #[trigger] s[i].0@ == k;
            assert(t[i].0@ == k);
        }
        if k == e.0@ {
            assert(t[s.len() as int].0@ == k);
        }
    }
    assert forall|k: Seq<char>| has_key(s, k) implies key_index(t, k) == key_index(s, k) by {
        let i = key_index(s, k);
        assert(t[i] == s[i]);
        lemma_key_index(t, i);
    }
    lemma_key_index(t, s.len() as int);
}

proof fn lemma_remove<V>(s: Seq<(String, V)>, j: int)
    requires
        keys_distinct(s),
        0 <= j < s.len(),
    ensures
        keys_distinct(s.remove(j)),
        forall|k: Seq<char>| has_key(s.remove(j), k) <==> (has_key(s, k) && k != s[j].0@),
        forall|k: Seq<char>|
            has_key(s.remove(j), k) ==> s.remove(j)[key_index(s.remove(j), k)] == s[key_index(s, k)],
{
    let t = s.remove(j);
    assert forall|a: int, b: int|
        0 <= a < t.len() && 0 <= b < t.len() && #[trigger] t[a].0@ == #[trigger] t[b].0@ implies a == b by {
        let a2 = if a < j { a } else { a + 1 };
        let b2 = if b < j { b } else { b + 1 };
        assert(s[a2].0@ == s[b2].0@);
    }
    assert forall|k: Seq<char>| has_key(t, k) <==> (has_key(s, k) && k != s[j].0@) by {
        if has_key(t, k) {
            let a = choose|a: int| 0 <= a < t.len() && #[trigger] t[a].0@ == k;
            let a2 = if a < j { a } else { a + 1 };
            assert(s[a2].0@ == k);
            if k == s[j].0@ {
                assert(s[a2].0@ == s[j].0@);
            }
        }
        if has_key(s, k) && k != s[j].0@ {
            let a = choose|a: int| 0 <= a < s.len() && #[trigger] s[a].0@ == k;
            if a < j {
                assert(t[a].0@ == k);
            } else {
                assert(t[a - 1].0@ == k);
            }
        }
    }
    assert forall|k: Seq<char>| has_key(t, k) implies t[key_index(t, k)] == s[key_index(s, k)] by {
        let a = key_index(t, k);
        let a2 = if a < j { a } else { a + 1 };
        assert(t[a] == s[a2]);
        lemma_key_index(s, a2);
    }
}

proof fn lemma_update<V>(s: Seq<(String, V)>, j: int, e: (String, V))
    requires
        keys_distinct(s),
        0 <= j < s.len(),
        e.0@ == s[j].0@,
    ensures
        keys_distinct(s.update(j, e)),
        forall|k: Seq<char>| has_key(s.update(j, e), k) <==> has_key(s, k),
        forall|k: Seq<char>| has_key(s, k) ==> key_index(s.update(j, e), k) == key_index(s, k),
{
    let t = s.update(j, e);
    assert forall|a: int, b: int|
        0 <= a < t.len() && 0 <= b < t.len() && #[trigger] t[a].0@ == #[trigger] t[b].0@ implies a == b by {
        assert(s[a].0@ == s[b].0@);
    }
    assert forall|k: Seq<char>| has_key(t, k) <==> has_key(s, k) by {
        if has_key(t, k) {
            let a = choose|a: int| 0 <= a < t.len() && #[trigger] t[a].0@ == k;
            assert(s[a].0@ == k);
        }
        if has_key(s, k) {
            let a = choose|a: int| 0 <= a < s.len() && #[trigger] s[a].0@ == k;
            assert(t[a].0@ == k);
        }
    }
    assert forall|k: Seq<char>| has_key(s, k) implies key_index(t, k) == key_index(s, k) by {
        let a = key_index(s, k);
        assert(t[a].0@ == k);
        lemma_key_index(t, a);
    }
}

/// Finds the position of `key` in an association list.
fn find_key<V>(entries: &Vec<(String, V)>, key: &String) -> (r: Option<usize>)
    ensures
        match r {
            Some(i) => i < entries@.len() && entries@[i as int].0@ == key@,
            None => !has_key(entries@, key@),
        },
{
    let mut i: usize = 0;
    while i < entries.len()
        invariant
            i <= entries@.len(),
            forall|j: int| 0 <= j < i ==> entries@[j].0@ != key@,
        decreases entries@.len() - i,
    {
        if entries[i].0 == *key {
            return Some(i);
        }
        i = i + 1;
    }
    None
}

/// The keys and values stored under one topic.
pub struct Topic {
    data: Vec<(String, String)>,
}

impl Topic {
    #[verifier::type_invariant]
    spec fn keys_unique(self) -> bool {
        keys_distinct(self.data@)
    }

    /// The keys of the topic and their values.
    pub closed spec fn view(&self) -> Map<Seq<char>, Seq<char>> {
        string_map(self.data@)
    }

    fn new() -> (t: Topic)
        ensures
            t@ == Map::<Seq<char>, Seq<char>>::empty(),
            t.data@.len() == 0,
    {
        let t = Topic { data: Vec::new() };
        assert(t@ =~= Map::<Seq<char>, Seq<char>>::empty());
        t
    }
}

/// The map that the list of topics stands for.
pub open spec fn topics_map(s: Seq<(String, Topic)>) -> CacheView {
    Map::new(|k: Seq<char>| has_key(s, k), |k: Seq<char>| s[key_index(s, k)].1@)
}

/// A store of topics, each a map from keys to values.
pub struct Cache {
    topics: Vec<(String, Topic)>,
}

impl View for Cache {
    type V = CacheView;

    closed spec fn view(&self) -> CacheView {
        topics_map(self.topics@)
    }
}

impl Cache {
    #[verifier::type_invariant]
    spec fn topic_names_unique(self) -> bool {
        keys_distinct(self.topics@)
    }

    /// An empty cache.
    pub fn new() -> (c: Cache)
        ensures
            c@ == CacheView::empty(),
    {
        let c = Cache { topics: Vec::new() };
        assert(c@ =~= CacheView::empty());
        c
    }

    /// The value under `key` in `topic_name`, or an error that names the topic.
    pub fn get(&self, topic_name: &str, key: &str) -> (r: Result<String, String>)
        ensures
            string_result_view(r) == get_spec(self@, topic_name@, key@),
    {
        proof {
            use_type_invariant(self);
        }
        let t = topic_name.to_owned();
        let k = key.to_owned();
        match find_key(&self.topics, &t) {
            None => {
                let mut msg = String::from_str("Topic not found: ");
                msg.append(topic_name);
                Err(msg)
            },
            Some(i) => {
                let topic = &self.topics[i].1;
                proof {
                    use_type_invariant(topic);
                    lemma_key_index(self.topics@, i as int);
                }
                match find_key(&topic.data, &k) {
                    None => {
                        let mut msg = String::from_str("Value not found: ");
                        msg.append(topic_name);
                        Err(msg)
                    },
                    Some(j) => {
                        proof {
                            lemma_key_index(topic.data@, j as int);
                        }
                        Ok(topic.data[j].1.clone())
                    },
                }
            },
        }
    }

    /// Stores `value` under `key` in `topic`, unless the key is already there.
    pub fn put(&mut self, topic: &str, key: &str, value: &str)
        ensures
            final(self)@ == put_spec(old(self)@, topic@, key@, value@),
    {
        proof {
            use_type_invariant(&*self);
        }
        let t = topic.to_owned();
        let k = key.to_owned();
        let v = value.to_owned();
        let mut topics: Vec<(String, Topic)> = Vec::new();
        std::mem::swap(&mut topics, &mut self.topics);
        let ghost s = topics@;
        assert(s == old(self).topics@);
        match find_key(&topics, &t) {
            None => {
                let Topic { data: mut d } = Topic::new();
                proof {
                    lemma_push(d@, (k, v));
                }
                d.push((k, v));
                let fresh = Topic { data: d };
                proof {
                    lemma_key_index(fresh.data@, 0);
                    assert(fresh@ =~= Map::<Seq<char>, Seq<char>>::empty().insert(key@, value@));
                    lemma_push(s, (t, fresh));
                }
                topics.push((t, fresh));
                proof {
                    assert(topics_map(topics@) =~= topics_map(s).insert(topic@, fresh@));
                }
            },
            Some(i) => {
                let (name, mut entry) = topics.remove(i);
                proof {
                    use_type_invariant(&entry);
                    lemma_key_index(s, i as int);
                }
                match find_key(&entry.data, &k) {
                    None => {
                        let ghost d = entry.data@;
                        proof {
                            lemma_push(d, (k, v));
                        }
                        let Topic { data: mut items } = entry;
                        items.push((k, v));
                        let entry = Topic { data: items };
                        proof {
                            assert(string_map(entry.data@) =~= string_map(d).insert(key@, value@));
                            lemma_update(s, i as int, (name, entry));
                        }
                        topics.insert(i, (name, entry));
                        proof {
                            assert(topics@ =~= s.update(i as int, (name, entry)));
                            assert forall|x: Seq<char>| has_key(s, x) && x != topic@ implies
                                key_index(s, x) != i by {}
                            assert(topics_map(topics@) =~= topics_map(s).insert(topic@, entry@));
                        }
                    },
                    Some(_) => {
                        topics.insert(i, (name, entry));
                        proof {
                            assert(topics@ =~= s);
                        }
                    },
                }
            },
        }
        self.topics = topics;
    }

    /// Removes `key` from `topic`; fails, and changes nothing, when the topic is missing.
    pub fn delete(&mut self, topic: &str, key: &str) -> (r: Result<(), String>)
        ensures
            final(self)@ == delete_spec(old(self)@, topic@, key@),
            unit_result_view(r) == delete_result_spec(old(self)@, topic@),
    {
        proof {
            use_type_invariant(&*self);
        }
        let t = topic.to_owned();
        let k = key.to_owned();
        let mut topics: Vec<(String, Topic)> = Vec::new();
        std::mem::swap(&mut topics, &mut self.topics);
        let ghost s = topics@;
        let r = match find_key(&topics, &t) {
            None => {
                proof {
                    assert(delete_spec(old(self)@, topic@, key@) == old(self)@);
                }
                self.topics = topics;
                let mut msg = String::from_str("Topic '");
                msg.append(topic);
                msg.append("' not found");
                Err(msg)
            },
            Some(i) => {
                let (name, mut entry) = topics.remove(i);
                proof {
                    use_type_invariant(&entry);
                    lemma_key_index(s, i as int);
                }
                let ghost d = entry.data@;
                match find_key(&entry.data, &k) {
                    None => {
                        proof {
                            assert(string_map(d) =~= string_map(d).remove(key@));
                        }
                    },
                    Some(j) => {
                        proof {
                            lemma_remove(d, j as int);
                        }
                        let Topic { data: mut items } = entry;
                        items.remove(j);
                        entry = Topic { data: items };
                        proof {
                            assert(string_map(entry.data@) =~= string_map(d).remove(key@));
                        }
                    },
                }
                proof {
                    lemma_update(s, i as int, (name, entry));
                }
                topics.insert(i, (name, entry));
                proof {
                    assert(topics@ =~= s.update(i as int, (name, entry)));
                    assert(topics_map(topics@) =~= topics_map(s).insert(topic@, entry@));
                }
                self.topics = topics;
                Ok(())
            },
        };
        r
    }
}

/// A value put under a key that its topic does not hold yet is what a get of
/// that key then returns.
pub proof fn lemma_get_after_put(m: CacheView, topic: Seq<char>, key: Seq<char>, value: Seq<char>)
    requires
        !(m.contains_key(topic) && m[topic].contains_key(key)),
    ensures
        get_spec(put_spec(m, topic, key, value), topic, key) == Ok::<Seq<char>, Seq<char>>(value),
{
}

/// A put never replaces a stored value: the first value put under a key stays.
pub proof fn lemma_put_keeps_stored(m: CacheView, topic: Seq<char>, key: Seq<char>, value: Seq<char>)
    requires
        m.contains_key(topic),
        m[topic].contains_key(key),
    ensures
        put_spec(m, topic, key, value) == m,
        get_spec(put_spec(m, topic, key, value), topic, key) == get_spec(m, topic, key),
{
}

/// A put changes no answer about another key of an existing topic, nor about
/// another topic.
pub proof fn lemma_put_leaves_others(
    m: CacheView,
    topic: Seq<char>,
    key: Seq<char>,
    value: Seq<char>,
    other_topic: Seq<char>,
    other_key: Seq<char>,
)
    requires
        other_topic != topic || (m.contains_key(topic) && other_key != key),
    ensures
        get_spec(put_spec(m, topic, key, value), other_topic, other_key) == get_spec(
            m,
            other_topic,
            other_key,
        ),
{
}

/// After a delete in an existing topic, the key is gone and the topic stays.
pub proof fn lemma_get_after_delete(m: CacheView, topic: Seq<char>, key: Seq<char>)
    requires
        m.contains_key(topic),
    ensures
        delete_result_spec(m, topic) == Ok::<(), Seq<char>>(()),
        get_spec(delete_spec(m, topic, key), topic, key) == Err::<Seq<char>, Seq<char>>(
            "Value not found: "@ + topic,
        ),
        delete_spec(m, topic, key).contains_key(topic),
{
}

/// A delete in a missing topic fails and changes nothing.
pub proof fn lemma_delete_missing_topic(m: CacheView, topic: Seq<char>, key: Seq<char>)
    requires
        !m.contains_key(topic),
    ensures
        delete_spec(m, topic, key) == m,
        delete_result_spec(m, topic) == Err::<(), Seq<char>>("Topic '"@ + topic + "' not found"@),
{
}

/// A delete changes no answer about another key or another topic.
pub proof fn lemma_delete_leaves_others(
    m: CacheView,
    topic: Seq<char>,
    key: Seq<char>,
    other_topic: Seq<char>,
    other_key: Seq<char>,
)
    requires
        other_topic != topic || other_key != key,
    ensures
        get_spec(delete_spec(m, topic, key), other_topic, other_key) == get_spec(
            m,
            other_topic,
            other_key,
        ),
{
}

/// Deleting twice is deleting once.
pub proof fn lemma_delete_idempotent(m: CacheView, topic: Seq<char>, key: Seq<char>)
    ensures
        delete_spec(delete_spec(m, topic, key), topic, key) == delete_spec(m, topic, key),
{
    if m.contains_key(topic) {
        assert(m[topic].remove(key).remove(key) =~= m[topic].remove(key));
        assert(delete_spec(delete_spec(m, topic, key), topic, key) =~= delete_spec(m, topic, key));
    }
}

} // verus!

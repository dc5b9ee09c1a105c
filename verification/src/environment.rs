//! The environment that a compilation sees: configured values, and those of the
//! process where they are inherited.

use vstd::prelude::*;
use vstd::utf8::encode_utf8;

use crate::hasher::{bytes_stream, len_stream, stable_sip, StableHasher};
use crate::order::{bytes_equal, bytes_le, bytes_le_is_total_order, rank, total_order, views};
use crate::path_buf::copy_bytes;
use crate::sorted_map::{
    keys_ranked, keys_ranked_unique, last_value, maps_to, put, put_all, put_all_keeps_last,
};
use crate::text::{encode_utf8_injective, text_equal};

verus! {

/// A variable of the process: its name and its value.
#[derive(Debug)]
pub struct EnvVar {
    pub name: Vec<u8>,
    pub value: Vec<u8>,
}

impl View for EnvVar {
    type V = (Seq<u8>, Seq<u8>);

    open spec fn view(&self) -> (Seq<u8>, Seq<u8>) {
        (self.name@, self.value@)
    }
}

impl Clone for EnvVar {
    fn clone(&self) -> (r: Self)
        ensures
            r@ == self@,
    {
        EnvVar {
            name: copy_bytes(self.name.as_slice()),
            value: copy_bytes(self.value.as_slice()),
        }
    }
}

/// The first variable of that name in a process.
pub open spec fn process_value(vars: Seq<(Seq<u8>, Seq<u8>)>, name: Seq<u8>) -> Option<Seq<u8>>
    decreases vars.len(),
{
    if vars.len() == 0 {
        None
    } else if vars[0].0 == name {
        Some(vars[0].1)
    } else {
        process_value(vars.skip(1), name)
    }
}

/// A configured variable: its name and its value.
#[derive(Debug)]
pub struct ConfigVar {
    pub name: String,
    pub value: Vec<u8>,
}

impl View for ConfigVar {
    type V = (Seq<char>, Seq<u8>);

    open spec fn view(&self) -> (Seq<char>, Seq<u8>) {
        (self.name@, self.value@)
    }
}

/// Where a name stands among configured variables.
pub open spec fn position(vars: Seq<(Seq<char>, Seq<u8>)>, name: Seq<char>) -> Option<int>
    decreases vars.len(),
{
    if vars.len() == 0 {
        None
    } else if vars.last().0 == name {
        Some(vars.len() - 1)
    } else {
        position(vars.drop_last(), name)
    }
}

/// The value configured for a name.
pub open spec fn config_value(vars: Seq<(Seq<char>, Seq<u8>)>, name: Seq<char>) -> Option<Seq<u8>> {
    match position(vars, name) {
        Some(i) => Some(vars[i].1),
        None => None,
    }
}

/// No name is configured twice.
pub open spec fn distinct_names(vars: Seq<(Seq<char>, Seq<u8>)>) -> bool {
    forall|i: int, j: int|
        0 <= i < j < vars.len() ==> (#[trigger] vars[i]).0 != (#[trigger] vars[j]).0
}

pub(crate) proof fn lemma_position(vars: Seq<(Seq<char>, Seq<u8>)>, name: Seq<char>)
    ensures
        position(vars, name) matches Some(i) ==> 0 <= i < vars.len() && vars[i].0 == name,
        position(vars, name) is None ==> forall|i: int|
            0 <= i < vars.len() ==> (#[trigger] vars[i]).0 != name,
    decreases vars.len(),
{
    if vars.len() > 0 {
        lemma_position(vars.drop_last(), name);
        if vars.last().0 != name {
            let init = vars.drop_last();
            if position(init, name) is None {
                assert forall|i: int| 0 <= i < vars.len() implies (#[trigger] vars[i]).0 != name by {
                    if i < init.len() {
                        assert(init[i].0 != name);
                    }
                }
            }
        }
    }
}

/// The configured variables with one of them set.
pub open spec fn with_value(
    vars: Seq<(Seq<char>, Seq<u8>)>,
    name: Seq<char>,
    value: Seq<u8>,
) -> Seq<(Seq<char>, Seq<u8>)> {
    match position(vars, name) {
        Some(i) => vars.update(i, (name, value)),
        None => vars.push((name, value)),
    }
}

/// Setting a variable gives it that value and leaves all others alone.
pub proof fn with_value_sets_one(
    vars: Seq<(Seq<char>, Seq<u8>)>,
    name: Seq<char>,
    value: Seq<u8>,
    other: Seq<char>,
)
    requires
        distinct_names(vars),
    ensures
        distinct_names(with_value(vars, name, value)),
        config_value(with_value(vars, name, value), name) == Some(value),
        other != name ==> config_value(with_value(vars, name, value), other) == config_value(
            vars,
            other,
        ),
{
    let after = with_value(vars, name, value);
    lemma_position(vars, name);
    lemma_position(vars, other);
    lemma_position(after, name);
    lemma_position(after, other);
    assert forall|i: int, j: int| 0 <= i < j < after.len() implies (#[trigger] after[i]).0 != (
    #[trigger] after[j]).0 by {
        if j < vars.len() {
            assert(vars[i].0 != vars[j].0);
        } else {
            assert(vars[i].0 != name);
        }
    }
    match position(vars, name) {
        Some(i) => {
            assert(after[i].0 == name);
            if other != name {
                match position(vars, other) {
                    Some(k) => {
                        assert(after[k].0 == other);
                    },
                    None => {
                        if position(after, other) is Some {
                            let k = position(after, other)->0;
                            assert(vars[k].0 == other);
                        }
                    },
                }
            }
        },
        None => {
            assert(after[vars.len() as int].0 == name);
            if other != name {
                match position(vars, other) {
                    Some(k) => {
                        assert(after[k].0 == other);
                    },
                    None => {
                        if position(after, other) is Some {
                            let k = position(after, other)->0;
                            assert(k < vars.len());
                            assert(vars[k].0 == other);
                        }
                    },
                }
            }
        },
    }
}

/// Configured variables, each name once.
#[derive(Debug)]
pub struct EnvConfig {
    vars: Vec<ConfigVar>,
}

impl View for EnvConfig {
    type V = Seq<(Seq<char>, Seq<u8>)>;

    closed spec fn view(&self) -> Seq<(Seq<char>, Seq<u8>)> {
        views(self.vars@)
    }
}

impl Clone for EnvConfig {
    fn clone(&self) -> (r: Self)
        ensures
            r@ == self@,
    {
        let mut vars: Vec<ConfigVar> = Vec::new();
        let mut i: usize = 0;
        while i < self.vars.len()
            invariant
                i <= self.vars@.len(),
                vars@.len() == i,
                forall|k: int| 0 <= k < i ==> (#[trigger] vars@[k])@ == self.vars@[k]@,
            decreases self.vars@.len() - i,
        {
            vars.push(
                ConfigVar {
                    name: self.vars[i].name.clone(),
                    value: copy_bytes(self.vars[i].value.as_slice()),
                },
            );
            i = i + 1;
        }
        assert(views(vars@) =~= self@);
        proof {
            use_type_invariant(self);
        }
        EnvConfig { vars }
    }
}

impl EnvConfig {
    /// No name is configured twice.
    #[verifier::type_invariant]
    spec fn names_are_distinct(self) -> bool {
        distinct_names(views(self.vars@))
    }

    /// Nothing configured.
    pub fn new() -> (r: Self)
        ensures
            r@ == Seq::<(Seq<char>, Seq<u8>)>::empty(),
    {
        let vars: Vec<ConfigVar> = Vec::new();
        assert(views(vars@) =~= Seq::<(Seq<char>, Seq<u8>)>::empty());
        EnvConfig { vars }
    }

    fn find(&self, name: &str) -> (r: Option<usize>)
        ensures
            r is Some <==> position(self@, name@) is Some,
            r matches Some(i) ==> i == position(self@, name@)->0 && i < self.vars@.len(),
    {
        let mut i: usize = self.vars.len();
        assert(self@.take(i as int) =~= self@);
        while i > 0
            invariant
                i <= self.vars@.len(),
                position(self@, name@) == position(self@.take(i as int), name@),
            decreases i,
        {
            proof {
                assert(self@.take(i as int).drop_last() =~= self@.take(i - 1));
                assert(self@.take(i as int).last() == self.vars@[i - 1]@);
            }
            i = i - 1;
            if text_equal(self.vars[i].name.as_str(), name) {
                return Some(i);
            }
        }
        None
    }

    /// The value configured for a name.
    pub fn get(&self, name: &str) -> (r: Option<Vec<u8>>)
        ensures
            r is Some <==> config_value(self@, name@) is Some,
            r matches Some(v) ==> v@ == config_value(self@, name@)->0,
            distinct_names(self@),
    {
        proof {
            use_type_invariant(self);
        }
        match self.find(name) {
            Some(i) => Some(copy_bytes(self.vars[i].value.as_slice())),
            None => None,
        }
    }

    /// Sets a variable.
    pub fn set(&mut self, name: &str, value: Vec<u8>)
        ensures
            final(self)@ == with_value(old(self)@, name@, value@),
            distinct_names(final(self)@),
    {
        proof {
            use_type_invariant(&*self);
            with_value_sets_one(self@, name@, value@, name@);
            lemma_position(self@, name@);
        }
        let at = self.find(name);
        let mut vars: Vec<ConfigVar> = Vec::new();
        std::mem::swap(&mut vars, &mut self.vars);
        let ghost before = vars@;
        let var = ConfigVar { name: name.to_string(), value };
        match at {
            Some(i) => {
                vars.set(i, var);
                assert(views(vars@) =~= views(before).update(i as int, (name@, value@)));
            },
            None => {
                vars.push(var);
                assert(views(vars@) =~= views(before).push((name@, value@)));
            },
        }
        self.vars = vars;
    }

    /// How many variables are configured.
    pub fn len(&self) -> (r: usize)
        ensures
            r == self@.len(),
            distinct_names(self@),
    {
        proof {
            use_type_invariant(self);
        }
        self.vars.len()
    }

    /// One of the configured variables.
    pub fn at(&self, i: usize) -> (r: &ConfigVar)
        requires
            i < self@.len(),
        ensures
            r@ == self@[i as int],
    {
        &self.vars[i]
    }
}

/// What a compilation sees of its environment.
#[verifier::ext_equal]
pub struct EnvironmentModel {
    pub config: Seq<(Seq<char>, Seq<u8>)>,
    pub process: Seq<(Seq<u8>, Seq<u8>)>,
    pub inherit: bool,
}

/// The value of a variable: the configured one, or else the inherited one.
pub open spec fn variable_value_of(e: EnvironmentModel, name: Seq<char>) -> Option<Seq<u8>> {
    match config_value(e.config, name) {
        Some(value) => Some(value),
        None => if e.inherit {
            process_value(e.process, encode_utf8(name))
        } else {
            None
        },
    }
}

/// Configured variables under the bytes of their names.
pub open spec fn encoded_vars(vars: Seq<(Seq<char>, Seq<u8>)>) -> Seq<(Seq<u8>, Seq<u8>)> {
    Seq::new(vars.len(), |i: int| (encode_utf8(vars[i].0), vars[i].1))
}

/// All variables that can be seen, the configured ones behind the inherited.
pub open spec fn visible_vars(e: EnvironmentModel) -> Seq<(Seq<u8>, Seq<u8>)> {
    (if e.inherit {
        e.process
    } else {
        Seq::empty()
    }) + encoded_vars(e.config)
}

/// The environment in the order of the names, each name with the value that
/// counts.
pub open spec fn visible_environment(e: EnvironmentModel) -> Seq<(Seq<u8>, Seq<u8>)> {
    put_all(Seq::empty(), visible_vars(e), |a: Seq<u8>, b: Seq<u8>| bytes_le(a, b))
}

/// What variables write to a hasher.
pub open spec fn vars_stream(vars: Seq<(Seq<u8>, Seq<u8>)>) -> Seq<u8>
    decreases vars.len(),
{
    if vars.len() == 0 {
        Seq::empty()
    } else {
        vars_stream(vars.drop_last()) + bytes_stream(vars.last().0) + bytes_stream(vars.last().1)
    }
}

/// What an environment writes to a hasher.
pub open spec fn environment_stream(vars: Seq<(Seq<u8>, Seq<u8>)>) -> Seq<u8> {
    len_stream(vars.len()) + vars_stream(vars)
}

/// A hash that is not zero.
pub open spec fn nonzero(h: u64) -> u64 {
    if h == 0 {
        1
    } else {
        h
    }
}

/// The key of the whole environment.
pub open spec fn provisional_key_of(e: EnvironmentModel) -> u64 {
    nonzero(stable_sip(environment_stream(visible_environment(e))))
}

/// What a compilation sees of its environment.
#[derive(Debug)]
pub struct InputEnvironment {
    config: EnvConfig,
    process: Vec<EnvVar>,
    inherit: bool,
}

impl View for InputEnvironment {
    type V = EnvironmentModel;

    closed spec fn view(&self) -> EnvironmentModel {
        EnvironmentModel {
            config: self.config@,
            process: views(self.process@),
            inherit: self.inherit,
        }
    }
}

fn copy_vars(vars: &Vec<EnvVar>) -> (r: Vec<EnvVar>)
    ensures
        views(r@) == views(vars@),
{
    let mut r: Vec<EnvVar> = Vec::new();
    let mut i: usize = 0;
    while i < vars.len()
        invariant
            i <= vars@.len(),
            r@.len() == i,
            forall|k: int| 0 <= k < i ==> (#[trigger] r@[k])@ == vars@[k]@,
        decreases vars@.len() - i,
    {
        r.push(vars[i].clone());
        i = i + 1;
    }
    assert(views(r@) =~= views(vars@));
    r
}

impl Clone for InputEnvironment {
    fn clone(&self) -> (r: Self)
        ensures
            r@ == self@,
    {
        InputEnvironment {
            config: self.config.clone(),
            process: copy_vars(&self.process),
            inherit: self.inherit,
        }
    }
}

impl InputEnvironment {
    /// The configured variables, and those of the process where they are
    /// inherited.
    pub fn new(config: &EnvConfig, process: &Vec<EnvVar>, inherit: bool) -> (r: Self)
        ensures
            r@ == (EnvironmentModel { config: config@, process: views(process@), inherit }),
    {
        InputEnvironment { config: config.clone(), process: copy_vars(process), inherit }
    }

    /// The value of a variable.
    pub fn variable_value(&self, name: &str) -> (r: Option<Vec<u8>>)
        ensures
            r is Some <==> variable_value_of(self@, name@) is Some,
            r matches Some(v) ==> v@ == variable_value_of(self@, name@)->0,
    {
        match self.config.get(name) {
            Some(value) => Some(value),
            None => if self.inherit {
                process_lookup(&self.process, name.as_bytes())
            } else {
                None
            },
        }
    }

    /// The key of the whole environment.
    pub fn provisional_key(&self) -> (r: u64)
        ensures
            r == provisional_key_of(self@),
            r != 0,
    {
        let entries = self.merged();
        let mut hasher = StableHasher::new();
        hasher.write_length_prefix(entries.len());
        let ghost all = views(entries@);
        let mut i: usize = 0;
        assert(hasher@ =~= len_stream(all.len()) + vars_stream(all.take(0)));
        while i < entries.len()
            invariant
                i <= entries@.len(),
                all == views(entries@),
                hasher@ == len_stream(all.len()) + vars_stream(all.take(i as int)),
            decreases entries@.len() - i,
        {
            proof {
                assert(all.take(i + 1).drop_last() =~= all.take(i as int));
                assert(all.take(i + 1).last() == entries@[i as int]@);
            }
            hasher.write_bytes(entries[i].0.as_slice());
            hasher.write_bytes(entries[i].1.as_slice());
            assert(hasher@ =~= len_stream(all.len()) + vars_stream(all.take(i + 1)));
            i = i + 1;
        }
        assert(all.take(i as int) =~= all);
        let h: u64 = hasher.finish();
        if h == 0 {
            1
        } else {
            h
        }
    }

    /// The environment in the order of the names.
    fn merged(&self) -> (r: Vec<(Vec<u8>, Vec<u8>)>)
        ensures
            views(r@) == visible_environment(self@),
    {
        let ghost le = |a: Seq<u8>, b: Seq<u8>| bytes_le(a, b);
        assert(rank::<Vec<u8>>() =~= le);
        let ghost all = visible_vars(self@);
        let mut r: Vec<(Vec<u8>, Vec<u8>)> = Vec::new();
        let ghost none = Seq::<(Seq<u8>, Seq<u8>)>::empty();
        assert(views(r@) =~= none);
        assert(all.take(0) =~= none);
        let mut n: usize = 0;
        if self.inherit {
            while n < self.process.len()
                invariant
                    n <= self.process@.len(),
                    self.inherit,
                    all == visible_vars(self@),
                    none == Seq::<(Seq<u8>, Seq<u8>)>::empty(),
                    rank::<Vec<u8>>() == le,
                    views(r@) == put_all(none, all.take(n as int), le),
                decreases self.process@.len() - n,
            {
                proof {
                    assert(all.take(n + 1).drop_last() =~= all.take(n as int));
                    assert(all[n as int] == views(self.process@)[n as int]);
                    assert(all.take(n + 1).last() == self.process@[n as int]@);
                }
                put(
                    &mut r,
                    copy_bytes(self.process[n].name.as_slice()),
                    copy_bytes(self.process[n].value.as_slice()),
                );
                n = n + 1;
            }
        }
        let mut i: usize = 0;
        while i < self.config.len()
            invariant
                i <= self.config@.len(),
                n == if self.inherit {
                    self.process@.len()
                } else {
                    0
                },
                all == visible_vars(self@),
                none == Seq::<(Seq<u8>, Seq<u8>)>::empty(),
                rank::<Vec<u8>>() == le,
                views(r@) == put_all(none, all.take(n + i), le),
            decreases self.config@.len() - i,
        {
            let var = self.config.at(i);
            proof {
                assert(all.take(n + i + 1).drop_last() =~= all.take(n + i));
                assert(all[n + i] == encoded_vars(self.config@)[i as int]);
                assert(all.take(n + i + 1).last() == (encode_utf8(var.name@), var.value@));
            }
            put(&mut r, copy_bytes(var.name.as_str().as_bytes()), copy_bytes(var.value.as_slice()));
            i = i + 1;
        }
        assert(all.take(n + i) =~= all);
        r
    }
}

/// The first variable of that name.
pub fn process_lookup(vars: &Vec<EnvVar>, name: &[u8]) -> (r: Option<Vec<u8>>)
    ensures
        r is Some <==> process_value(views(vars@), name@) is Some,
        r matches Some(v) ==> v@ == process_value(views(vars@), name@)->0,
{
    let ghost all = views(vars@);
    let mut i: usize = 0;
    assert(all.skip(0) =~= all);
    while i < vars.len()
        invariant
            i <= vars@.len(),
            all == views(vars@),
            process_value(all, name@) == process_value(all.skip(i as int), name@),
        decreases vars@.len() - i,
    {
        proof {
            assert(all.skip(i as int).skip(1) =~= all.skip(i + 1));
            assert(all.skip(i as int)[0] == vars@[i as int]@);
        }
        if bytes_equal(vars[i].name.as_slice(), name) {
            return Some(copy_bytes(vars[i].value.as_slice()));
        }
        i = i + 1;
    }
    None
}

/// The environment lists each visible name once, in order, with its last value.
pub proof fn visible_environment_keeps_last(e: EnvironmentModel)
    ensures
        ({
            let le = |a: Seq<u8>, b: Seq<u8>| bytes_le(a, b);
            &&& keys_ranked(visible_environment(e), le)
            &&& forall|name: Seq<u8>, value: Seq<u8>| #[trigger]
                maps_to(visible_environment(e), name, value, le) <==> last_value(
                    visible_vars(e),
                    name,
                    le,
                ) == Some(value)
        }),
{
    bytes_le_is_total_order();
    put_all_keeps_last(visible_vars(e), |a: Seq<u8>, b: Seq<u8>| bytes_le(a, b));
}

proof fn lemma_last_of_encoded(
    head: Seq<(Seq<u8>, Seq<u8>)>,
    vars: Seq<(Seq<char>, Seq<u8>)>,
    name: Seq<u8>,
    le: spec_fn(Seq<u8>, Seq<u8>) -> bool,
)
    requires
        le == (|a: Seq<u8>, b: Seq<u8>| bytes_le(a, b)),
        total_order(le),
    ensures
        (exists|t: Seq<char>| #[trigger] encode_utf8(t) == name && position(vars, t) is Some) ==> {
            let t = choose|t: Seq<char>| #[trigger]
                encode_utf8(t) == name && position(vars, t) is Some;
            last_value(head + encoded_vars(vars), name, le) == config_value(vars, t)
        },
        !(exists|t: Seq<char>| #[trigger] encode_utf8(t) == name && position(vars, t) is Some)
            ==> last_value(head + encoded_vars(vars), name, le) == last_value(head, name, le),
    decreases vars.len(),
{
    let all = head + encoded_vars(vars);
    if vars.len() == 0 {
        assert(all =~= head);
    } else {
        let init = vars.drop_last();
        lemma_last_of_encoded(head, init, name, le);
        assert(all.drop_last() =~= head + encoded_vars(init));
        assert(all.last() == (encode_utf8(vars.last().0), vars.last().1));
        assert(le(name, name));
        if encode_utf8(vars.last().0) == name {
            let t = choose|t: Seq<char>| #[trigger]
                encode_utf8(t) == name && position(vars, t) is Some;
            assert(position(vars, vars.last().0) is Some);
            encode_utf8_injective(t, vars.last().0);
        } else {
            if exists|t: Seq<char>| #[trigger] encode_utf8(t) == name && position(vars, t) is Some {
                let t = choose|t: Seq<char>| #[trigger]
                    encode_utf8(t) == name && position(vars, t) is Some;
                assert(t != vars.last().0);
                assert(position(init, t) is Some);
                let u = choose|t: Seq<char>| #[trigger]
                    encode_utf8(t) == name && position(init, t) is Some;
                encode_utf8_injective(t, u);
                lemma_position(init, t);
            }
            if exists|t: Seq<char>| #[trigger] encode_utf8(t) == name && position(init, t) is Some {
                let u = choose|t: Seq<char>| #[trigger]
                    encode_utf8(t) == name && position(init, t) is Some;
                assert(u != vars.last().0);
                assert(position(vars, u) is Some);
            }
        }
    }
}

/// The key of an environment depends on what is configured, not on the order in
/// which it was.
pub proof fn provisional_key_ignores_order(a: EnvironmentModel, b: EnvironmentModel)
    requires
        a.inherit == b.inherit,
        a.process == b.process,
        forall|name: Seq<char>| #[trigger]
            config_value(a.config, name) == config_value(b.config, name),
    ensures
        provisional_key_of(a) == provisional_key_of(b),
{
    bytes_le_is_total_order();
    let le = |x: Seq<u8>, y: Seq<u8>| bytes_le(x, y);
    visible_environment_keeps_last(a);
    visible_environment_keeps_last(b);
    let head = if a.inherit {
        a.process
    } else {
        Seq::empty()
    };
    assert forall|name: Seq<u8>, value: Seq<u8>| #[trigger]
        maps_to(visible_environment(a), name, value, le) <==> maps_to(
            visible_environment(b),
            name,
            value,
            le,
        ) by {
        lemma_last_of_encoded(head, a.config, name, le);
        lemma_last_of_encoded(head, b.config, name, le);
        assert forall|t: Seq<char>| position(a.config, t) is Some <==> #[trigger] position(
            b.config,
            t,
        ) is Some by {
            assert(config_value(a.config, t) == config_value(b.config, t));
        }
        if exists|t: Seq<char>| #[trigger] encode_utf8(t) == name && position(a.config, t) is Some {
            let t = choose|t: Seq<char>| #[trigger]
                encode_utf8(t) == name && position(a.config, t) is Some;
            assert(position(b.config, t) is Some);
            let u = choose|t: Seq<char>| #[trigger]
                encode_utf8(t) == name && position(b.config, t) is Some;
            encode_utf8_injective(t, u);
            assert(config_value(a.config, t) == config_value(b.config, t));
        } else if exists|t: Seq<char>| #[trigger]
            encode_utf8(t) == name && position(b.config, t) is Some {
            let u = choose|t: Seq<char>| #[trigger]
                encode_utf8(t) == name && position(b.config, t) is Some;
            assert(position(a.config, u) is Some);
        }
        assert(last_value(visible_vars(a), name, le) == last_value(visible_vars(b), name, le));
    }
    keys_ranked_unique(visible_environment(a), visible_environment(b), le);
}

} // verus!

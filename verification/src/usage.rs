//! Usage accounting: the bounded usage history and the usage summary by
//! connection and by (connection, model).

use vstd::prelude::*;
use vstd::string::*;

use crate::model::{ChatResult, TokenAllowance};
use crate::text::{less_text, text_less};

verus! {

/// How many usage records the history keeps.
pub const USAGE_HISTORY_LIMIT: usize = 1000;

/// How many of the newest records the summary lists.
pub const RECENT_LIMIT: usize = 100;

/// The history after recording `record`: the newest `USAGE_HISTORY_LIMIT`
/// records of the old history followed by the new one.
pub open spec fn recorded<T>(history: Seq<T>, record: T) -> Seq<T> {
    let all = history.push(record);
    if all.len() > USAGE_HISTORY_LIMIT {
        all.subrange(all.len() - USAGE_HISTORY_LIMIT, all.len() as int)
    } else {
        all
    }
}

/// Adds a record to the history, dropping the oldest records beyond
/// `USAGE_HISTORY_LIMIT`.
pub fn record_usage<T>(history: &mut Vec<T>, record: T)
    ensures
        final(history)@ == recorded(old(history)@, record),
{
    history.push(record);
    let len = history.len();
    if len > USAGE_HISTORY_LIMIT {
        let newest = history.split_off(len - USAGE_HISTORY_LIMIT);
        *history = newest;
    }
}

/// The usage history never holds more than `USAGE_HISTORY_LIMIT` records, and
/// the record just added is the newest one.
pub proof fn lemma_history_bounded<T>(history: Seq<T>, record: T)
    ensures
        recorded(history, record).len() <= USAGE_HISTORY_LIMIT,
        recorded(history, record).last() == record,
        history.len() < USAGE_HISTORY_LIMIT ==> recorded(history, record) == history.push(record),
{
}

/// The grouping key of a record by connection: its connection id (and no
/// model).
pub open spec fn connection_key(r: ChatResult) -> (Seq<char>, Seq<char>) {
    (r.connection_id@, Seq::empty())
}

/// The grouping key of a record by model: the pair of its connection id and
/// its model.
pub open spec fn model_key(r: ChatResult) -> (Seq<char>, Seq<char>) {
    (r.connection_id@, r.model@)
}

/// The characters of an executable grouping key.
pub open spec fn key_view(k: (String, String)) -> (Seq<char>, Seq<char>) {
    (k.0@, k.1@)
}

/// The characters of a list of executable grouping keys.
pub open spec fn key_views(keys: Seq<(String, String)>) -> Seq<(Seq<char>, Seq<char>)> {
    keys.map_values(|k: (String, String)| key_view(k))
}

/// The distinct keys among the first `n` keys, in order of first occurrence.
pub open spec fn distinct_keys(keys: Seq<(Seq<char>, Seq<char>)>, n: nat) -> Seq<(Seq<char>, Seq<char>)>
    decreases n,
{
    if n == 0 {
        Seq::empty()
    } else {
        let prev = distinct_keys(keys, (n - 1) as nat);
        if prev.contains(keys[n - 1]) {
            prev
        } else {
            prev.push(keys[n - 1])
        }
    }
}

/// The positions among the first `n` whose key is `key`, in increasing order.
pub open spec fn key_positions(keys: Seq<(Seq<char>, Seq<char>)>, key: (Seq<char>, Seq<char>), n: nat) -> Seq<int>
    decreases n,
{
    if n == 0 {
        Seq::empty()
    } else {
        let prev = key_positions(keys, key, (n - 1) as nat);
        if keys[n - 1] == key {
            prev.push(n - 1)
        } else {
            prev
        }
    }
}

/// The sum of `amount` over the first `n` records whose key is `key`.
pub open spec fn key_total(
    history: Seq<ChatResult>,
    keys: Seq<(Seq<char>, Seq<char>)>,
    key: (Seq<char>, Seq<char>),
    amount: spec_fn(ChatResult) -> int,
    n: nat,
) -> int
    decreases n,
{
    if n == 0 {
        0
    } else {
        key_total(history, keys, key, amount, (n - 1) as nat) + if keys[n - 1] == key {
            amount(history[n - 1])
        } else {
            0
        }
    }
}

/// The sum of `amount` over the first `n` records.
pub open spec fn total(history: Seq<ChatResult>, amount: spec_fn(ChatResult) -> int, n: nat) -> int
    decreases n,
{
    if n == 0 {
        0
    } else {
        total(history, amount, (n - 1) as nat) + amount(history[n - 1])
    }
}

/// A record's prompt tokens.
pub open spec fn input_amount() -> spec_fn(ChatResult) -> int {
    |r: ChatResult| r.input_tokens as int
}

/// A record's completion tokens.
pub open spec fn output_amount() -> spec_fn(ChatResult) -> int {
    |r: ChatResult| r.output_tokens as int
}

/// A record's total tokens.
pub open spec fn total_amount() -> spec_fn(ChatResult) -> int {
    |r: ChatResult| r.total_tokens as int
}

/// The token sums over the whole history fit in 64 bits.
pub open spec fn sums_fit(history: Seq<ChatResult>) -> bool {
    &&& total(history, input_amount(), history.len()) <= u64::MAX
    &&& total(history, output_amount(), history.len()) <= u64::MAX
    &&& total(history, total_amount(), history.len()) <= u64::MAX
}

/// The records of one group, as positions in the history, with their counts
/// and token sums.
#[derive(Debug)]
pub struct UsageGroup {
    /// The position of the group's first record.
    pub first: usize,
    pub requests: u64,
    pub input_tokens: u64,
    pub output_tokens: u64,
    pub total_tokens: u64,
    /// The positions of the group's records, oldest first.
    pub records: Vec<usize>,
}

/// `g` is the group of key `key` among the first `n` records.
pub open spec fn describes_group(
    history: Seq<ChatResult>,
    keys: Seq<(Seq<char>, Seq<char>)>,
    key: (Seq<char>, Seq<char>),
    g: UsageGroup,
    n: nat,
) -> bool {
    let positions = key_positions(keys, key, n);
    &&& positions.len() > 0
    &&& g.first == positions[0]
    &&& g.records@.map_values(|i: usize| i as int) == positions
    &&& g.requests == positions.len()
    &&& g.input_tokens == key_total(history, keys, key, input_amount(), n)
    &&& g.output_tokens == key_total(history, keys, key, output_amount(), n)
    &&& g.total_tokens == key_total(history, keys, key, total_amount(), n)
}

proof fn lemma_key_positions(keys: Seq<(Seq<char>, Seq<char>)>, key: (Seq<char>, Seq<char>), n: nat)
    requires
        n <= keys.len(),
    ensures
        key_positions(keys, key, n).len() <= n,
        forall|j: int|
            0 <= j < key_positions(keys, key, n).len() ==> 0 <= #[trigger] key_positions(keys, key, n)[j] < n
                && keys[key_positions(keys, key, n)[j]] == key,
        (forall|j: int| 0 <= j < n ==> keys[j] != key) ==> key_positions(keys, key, n) == Seq::<int>::empty(),
        (exists|j: int| 0 <= j < n && keys[j] == key) ==> key_positions(keys, key, n).len() > 0,
    decreases n,
{
    if n > 0 {
        lemma_key_positions(keys, key, (n - 1) as nat);
        if exists|j: int| 0 <= j < n && keys[j] == key {
            if keys[n - 1] != key {
                let j = choose|j: int| 0 <= j < n && keys[j] == key;
                assert(j < n - 1);
            }
        }
    }
}

proof fn lemma_key_total_absent(
    history: Seq<ChatResult>,
    keys: Seq<(Seq<char>, Seq<char>)>,
    key: (Seq<char>, Seq<char>),
    amount: spec_fn(ChatResult) -> int,
    n: nat,
)
    requires
        n <= keys.len(),
        forall|j: int| 0 <= j < n ==> keys[j] != key,
    ensures
        key_total(history, keys, key, amount, n) == 0,
    decreases n,
{
    if n > 0 {
        lemma_key_total_absent(history, keys, key, amount, (n - 1) as nat);
    }
}

proof fn lemma_key_total_bounded(
    history: Seq<ChatResult>,
    keys: Seq<(Seq<char>, Seq<char>)>,
    key: (Seq<char>, Seq<char>),
    amount: spec_fn(ChatResult) -> int,
    n: nat,
)
    requires
        forall|r: ChatResult| #[trigger] amount(r) >= 0,
    ensures
        0 <= key_total(history, keys, key, amount, n) <= total(history, amount, n),
    decreases n,
{
    if n > 0 {
        lemma_key_total_bounded(history, keys, key, amount, (n - 1) as nat);
    }
}

proof fn lemma_total_monotone(history: Seq<ChatResult>, amount: spec_fn(ChatResult) -> int, m: nat, n: nat)
    requires
        m <= n,
        forall|r: ChatResult| #[trigger] amount(r) >= 0,
    ensures
        0 <= total(history, amount, m) <= total(history, amount, n),
    decreases n,
{
    if m < n {
        lemma_total_monotone(history, amount, m, (n - 1) as nat);
    } else if n > 0 {
        lemma_total_monotone(history, amount, 0, (n - 1) as nat);
    }
}

proof fn lemma_distinct_keys_unique(keys: Seq<(Seq<char>, Seq<char>)>, n: nat)
    requires
        n <= keys.len(),
    ensures
        distinct_keys(keys, n).no_duplicates(),
    decreases n,
{
    if n > 0 {
        lemma_distinct_keys_unique(keys, (n - 1) as nat);
    }
}

proof fn lemma_distinct_keys(keys: Seq<(Seq<char>, Seq<char>)>, n: nat)
    requires
        n <= keys.len(),
    ensures
        forall|k: (Seq<char>, Seq<char>)| #[trigger] distinct_keys(keys, n).contains(k) <==> exists|j: int| 0 <= j < n && keys[j] == k,
    decreases n,
{
    if n > 0 {
        lemma_distinct_keys(keys, (n - 1) as nat);
        let prev = distinct_keys(keys, (n - 1) as nat);
        assert forall|k: (Seq<char>, Seq<char>)| #[trigger] distinct_keys(keys, n).contains(k) <==> exists|j: int| 0 <= j < n && keys[j] == k by {
            if exists|j: int| 0 <= j < n && keys[j] == k {
                let j = choose|j: int| 0 <= j < n && keys[j] == k;
                if j < n - 1 {
                    assert(prev.contains(k));
                    if !prev.contains(keys[n - 1]) {
                        let p = choose|p: int| 0 <= p < prev.len() && prev[p] == k;
                        assert(prev.push(keys[n - 1])[p] == k);
                    }
                } else if !prev.contains(keys[n - 1]) {
                    assert(prev.push(keys[n - 1])[prev.len() as int] == k);
                }
            }
            if distinct_keys(keys, n).contains(k) {
                if !prev.contains(k) {
                    assert(!prev.contains(keys[n - 1]));
                    let pushed = prev.push(keys[n - 1]);
                    let p = choose|p: int| 0 <= p < pushed.len() && #[trigger] pushed[p] == k;
                    if p < prev.len() {
                        assert(prev[p] == k);
                    }
                }
            }
        }
    }
}

fn amounts_step(
    history: &Vec<ChatResult>,
    keys: &Vec<(String, String)>,
    g: &UsageGroup,
    i: usize,
)
    requires
        keys@.len() == history@.len(),
        i < history@.len(),
        history@.len() <= usize::MAX,
        sums_fit(history@),
        describes_group(
            history@,
            key_views(keys@),
            key_view(keys@[i as int]),
            *g,
            i as nat,
        ),
    ensures
        g.input_tokens + history@[i as int].input_tokens <= u64::MAX,
        g.output_tokens + history@[i as int].output_tokens <= u64::MAX,
        g.total_tokens + history@[i as int].total_tokens <= u64::MAX,
        g.requests + 1 <= u64::MAX,
        g.records@.len() < usize::MAX,
{
    let ghost ks = key_views(keys@);
    let ghost key = key_view(keys@[i as int]);
    let ghost n = history@.len();
    proof {
        let h = history@;
        lemma_key_total_bounded(h, ks, key, input_amount(), (i + 1) as nat);
        lemma_key_total_bounded(h, ks, key, output_amount(), (i + 1) as nat);
        lemma_key_total_bounded(h, ks, key, total_amount(), (i + 1) as nat);
        lemma_total_monotone(h, input_amount(), (i + 1) as nat, n);
        lemma_total_monotone(h, output_amount(), (i + 1) as nat, n);
        lemma_total_monotone(h, total_amount(), (i + 1) as nat, n);
        assert(ks[i as int] == key);
        lemma_key_positions(ks, key, i as nat);
        assert(g.records@.len() == key_positions(ks, key, i as nat).len());
        assert(usize::MAX <= u64::MAX);
    }
}

/// The records grouped by key, in order of each key's first record.
pub fn group_by_key(history: &Vec<ChatResult>, keys: &Vec<(String, String)>) -> (groups: Vec<UsageGroup>)
    requires
        keys@.len() == history@.len(),
        sums_fit(history@),
    ensures
        groups@.len() == distinct_keys(key_views(keys@), history@.len()).len(),
        forall|k: int|
            0 <= k < groups@.len() ==> describes_group(
                history@,
                key_views(keys@),
                distinct_keys(key_views(keys@), history@.len())[k],
                #[trigger] groups@[k],
                history@.len(),
            ),
{
    let ghost ks = key_views(keys@);
    let ghost h = history@;
    let mut groups: Vec<UsageGroup> = Vec::new();
    let mut i: usize = 0;
    while i < history.len()
        invariant
            i <= h.len(),
            h == history@,
            ks == key_views(keys@),
            keys@.len() == h.len(),
            sums_fit(h),
            groups@.len() == distinct_keys(ks, i as nat).len(),
            forall|k: int|
                0 <= k < groups@.len() ==> describes_group(
                    h,
                    ks,
                    distinct_keys(ks, i as nat)[k],
                    #[trigger] groups@[k],
                    i as nat,
                ),
        decreases h.len() - i,
    {
        let key = &keys[i];
        let ghost kv = key_view(*key);
        assert(ks[i as int] == kv);
        let ghost d = distinct_keys(ks, i as nat);
        proof {
            lemma_distinct_keys(ks, i as nat);
        }
        let mut g: usize = 0;
        let mut found = false;
        while g < groups.len()
            invariant_except_break
                !found,
            invariant
                g <= groups@.len(),
                groups@.len() == d.len(),
                h == history@,
                ks == key_views(keys@),
                keys@.len() == h.len(),
                i < h.len(),
                kv == key_view(keys@[i as int]),
                key_view(*key) == kv,
                forall|k: int|
                    0 <= k < groups@.len() ==> describes_group(h, ks, d[k], #[trigger] groups@[k], i as nat),
                forall|k: int| 0 <= k < g ==> d[k] != kv,
            ensures
                found ==> g < groups@.len() && d[g as int] == kv,
                !found ==> forall|k: int| 0 <= k < d.len() ==> d[k] != kv,
            decreases groups@.len() - g,
        {
            let first = groups[g].first;
            proof {
                lemma_key_positions(ks, d[g as int], i as nat);
                assert(describes_group(h, ks, d[g as int], groups@[g as int], i as nat));
                assert(key_positions(ks, d[g as int], i as nat)[0] == first);
                assert(ks[first as int] == d[g as int]);
                assert(ks[first as int] == key_view(keys@[first as int]));
            }
            let same = keys[first].0 == key.0 && keys[first].1 == key.1;
            if same {
                found = true;
                break;
            }
            g = g + 1;
        }
        if found {
            let ghost old_groups = groups@;
            proof {
                lemma_key_positions(ks, d[g as int], i as nat);
                lemma_distinct_keys_unique(ks, i as nat);
            }
            let mut group = UsageGroup {
                first: 0,
                requests: 0,
                input_tokens: 0,
                output_tokens: 0,
                total_tokens: 0,
                records: Vec::new(),
            };
            groups.set_and_swap(g, &mut group);
            amounts_step(history, keys, &group, i);
            let r = &history[i];
            let mut records = group.records;
            let ghost old_records = records@;
            records.push(i);
            assert(records@.map_values(|x: usize| x as int) =~= old_records.map_values(|x: usize| x as int).push(i as int));
            let updated = UsageGroup {
                first: group.first,
                requests: group.requests + 1,
                input_tokens: group.input_tokens + r.input_tokens,
                output_tokens: group.output_tokens + r.output_tokens,
                total_tokens: group.total_tokens + r.total_tokens,
                records,
            };
            groups.set(g, updated);
            proof {
                assert(distinct_keys(ks, (i + 1) as nat) == d) by {
                    assert(d[g as int] == kv);
                    assert(d.contains(ks[i as int]));
                }
                assert forall|k: int| 0 <= k < groups@.len() implies describes_group(
                    h,
                    ks,
                    distinct_keys(ks, (i + 1) as nat)[k],
                    #[trigger] groups@[k],
                    (i + 1) as nat,
                ) by {
                    assert(describes_group(h, ks, d[k], old_groups[k], i as nat));
                    if k != g {
                        assert(groups@[k] == old_groups[k]);
                        assert(d[k] != d[g as int]);
                    } else {
                        assert(key_positions(ks, kv, (i + 1) as nat) == key_positions(ks, kv, i as nat).push(i as int));
                    }
                }
            }
        } else {
            proof {
                assert(!d.contains(kv));
                assert forall|j: int| 0 <= j < i implies ks[j] != kv by {
                    if ks[j] == kv {
                        assert(d.contains(kv));
                    }
                }
                lemma_key_positions(ks, kv, i as nat);
                lemma_key_total_absent(h, ks, kv, input_amount(), i as nat);
                lemma_key_total_absent(h, ks, kv, output_amount(), i as nat);
                lemma_key_total_absent(h, ks, kv, total_amount(), i as nat);
            }
            let ghost old_groups = groups@;
            let r = &history[i];
            let mut records: Vec<usize> = Vec::new();
            records.push(i);
            assert(records@.map_values(|x: usize| x as int) =~= seq![i as int]);
            assert(key_positions(ks, kv, (i + 1) as nat) =~= seq![i as int]);
            groups.push(
                UsageGroup {
                    first: i,
                    requests: 1,
                    input_tokens: r.input_tokens,
                    output_tokens: r.output_tokens,
                    total_tokens: r.total_tokens,
                    records,
                },
            );
            proof {
                assert(distinct_keys(ks, (i + 1) as nat) == d.push(kv));
                assert forall|k: int| 0 <= k < groups@.len() implies describes_group(
                    h,
                    ks,
                    distinct_keys(ks, (i + 1) as nat)[k],
                    #[trigger] groups@[k],
                    (i + 1) as nat,
                ) by {
                    if k < old_groups.len() {
                        assert(groups@[k] == old_groups[k]);
                        assert(describes_group(h, ks, d[k], old_groups[k], i as nat));
                        assert(d[k] != kv) by {
                            if d[k] == kv {
                                assert(d.contains(kv));
                            }
                        }
                    }
                }
            }
        }
        i = i + 1;
    }
    groups
}

} // verus!

verus! {

/// The connection key of every record.
pub open spec fn connection_keys(history: Seq<ChatResult>) -> Seq<(Seq<char>, Seq<char>)> {
    history.map_values(|r: ChatResult| connection_key(r))
}

/// The model key of every record.
pub open spec fn model_keys(history: Seq<ChatResult>) -> Seq<(Seq<char>, Seq<char>)> {
    history.map_values(|r: ChatResult| model_key(r))
}

/// Usage of one connection.
#[derive(Debug)]
pub struct ConnectionUsage {
    pub connection_id: String,
    pub connection_name: String,
    pub usage: UsageGroup,
}

/// Usage of one model of one connection.
#[derive(Debug)]
pub struct ModelUsage {
    pub connection_id: String,
    pub provider_name: String,
    pub model: String,
    pub usage: UsageGroup,
    /// What is left of the allowance the user set for this connection and
    /// model, derived from the recorded usage; `None` without an allowance.
    pub remaining_tokens: Option<u64>,
}

/// The usage summary of a history. Costs are summed by the caller over the
/// record positions of each group, as floating-point numbers.
#[derive(Debug)]
pub struct UsageTotals {
    pub total_requests: u64,
    pub input_tokens: u64,
    pub output_tokens: u64,
    pub total_tokens: u64,
    pub by_connection: Vec<ConnectionUsage>,
    pub by_model: Vec<ModelUsage>,
    /// Positions of the newest records, newest first.
    pub recent: Vec<usize>,
}

/// `u` is the usage of the connection with id `key`, named as in its first
/// record.
pub open spec fn is_connection_usage(history: Seq<ChatResult>, key: (Seq<char>, Seq<char>), u: ConnectionUsage) -> bool {
    &&& describes_group(history, connection_keys(history), key, u.usage, history.len())
    &&& u.connection_id@ == history[u.usage.first as int].connection_id@
    &&& u.connection_name@ == history[u.usage.first as int].connection_name@
}

/// `u` is the usage of the model key `key`, with the connection id, provider
/// name and model of its first record.
pub open spec fn is_model_usage(history: Seq<ChatResult>, key: (Seq<char>, Seq<char>), u: ModelUsage) -> bool {
    &&& describes_group(history, model_keys(history), key, u.usage, history.len())
    &&& u.connection_id@ == history[u.usage.first as int].connection_id@
    &&& u.provider_name@ == history[u.usage.first as int].connection_name@
    &&& u.model@ == history[u.usage.first as int].model@
}

/// `a` sorts strictly before `b`: by provider name, then by model.
pub open spec fn model_usage_before(a: ModelUsage, b: ModelUsage) -> bool {
    text_less(a.provider_name@, b.provider_name@) || (a.provider_name@ == b.provider_name@ && text_less(
        a.model@,
        b.model@,
    ))
}

/// The model usages are sorted by provider name, then by model.
pub open spec fn model_usage_sorted(s: Seq<ModelUsage>) -> bool {
    forall|i: int, j: int| 0 <= i < j < s.len() ==> !model_usage_before(#[trigger] s[j], #[trigger] s[i])
}

/// Positions of the newest `RECENT_LIMIT` records of a history of `len`
/// records, newest first.
pub open spec fn recent_positions(len: nat) -> Seq<int> {
    let n = if len < RECENT_LIMIT {
        len
    } else {
        RECENT_LIMIT as nat
    };
    Seq::new(n, |k: int| len - 1 - k)
}

proof fn lemma_before_transitive(a: ModelUsage, b: ModelUsage, c: ModelUsage)
    requires
        model_usage_before(a, b),
        model_usage_before(b, c),
    ensures
        model_usage_before(a, c),
{
    if text_less(a.provider_name@, b.provider_name@) && text_less(b.provider_name@, c.provider_name@) {
        crate::text::lemma_text_less_transitive(a.provider_name@, b.provider_name@, c.provider_name@);
    }
    crate::text::lemma_text_less_irreflexive(b.provider_name@);
    crate::text::lemma_text_less_irreflexive(a.provider_name@);
    if a.provider_name@ == b.provider_name@ && b.provider_name@ == c.provider_name@ {
        crate::text::lemma_text_less_transitive(a.model@, b.model@, c.model@);
    }
}

proof fn lemma_insert_to_multiset<A>(s: Seq<A>, p: int, x: A)
    requires
        0 <= p <= s.len(),
    ensures
        s.insert(p, x).to_multiset() =~= s.to_multiset().insert(x),
{
    let t = s.insert(p, x);
    assert(t.remove(p) =~= s);
    t.to_multiset_ensures();
    assert(t[p] == x);
    assert(t.contains(x));
}

/// Model usages sorted for the summary are in order of provider name, then
/// of model, in string order: for `i < j`, the provider name at `i` is not
/// greater than the one at `j`, and when the two are equal neither is the
/// model.
pub proof fn lemma_model_usage_order(s: Seq<ModelUsage>)
    requires
        model_usage_sorted(s),
    ensures
        forall|i: int, j: int|
            0 <= i < j < s.len() ==> (text_less((#[trigger] s[i]).provider_name@, (#[trigger] s[j]).provider_name@)
                || s[i].provider_name@ == s[j].provider_name@) && (s[i].provider_name@ == s[j].provider_name@
                ==> text_less(s[i].model@, s[j].model@) || s[i].model@ == s[j].model@),
{
    assert forall|i: int, j: int| 0 <= i < j < s.len() implies (text_less(
        (#[trigger] s[i]).provider_name@,
        (#[trigger] s[j]).provider_name@,
    ) || s[i].provider_name@ == s[j].provider_name@) && (s[i].provider_name@ == s[j].provider_name@ ==> text_less(
        s[i].model@,
        s[j].model@,
    ) || s[i].model@ == s[j].model@) by {
        assert(!model_usage_before(s[j], s[i]));
        crate::text::lemma_text_less_total(s[i].provider_name@, s[j].provider_name@);
        crate::text::lemma_text_less_total(s[i].model@, s[j].model@);
    }
}

fn model_usage_less(a: &ModelUsage, b: &ModelUsage) -> (less: bool)
    ensures
        less == model_usage_before(*a, *b),
{
    less_text(a.provider_name.as_str(), b.provider_name.as_str()) || (a.provider_name == b.provider_name
        && less_text(a.model.as_str(), b.model.as_str()))
}

/// Sorts model usages by provider name, then by model.
pub fn sort_model_usage(items: Vec<ModelUsage>) -> (sorted: Vec<ModelUsage>)
    ensures
        sorted@.to_multiset() == items@.to_multiset(),
        model_usage_sorted(sorted@),
        forall|i: int, j: int|
            0 <= i < j < sorted@.len() ==> (text_less((#[trigger] sorted@[i]).provider_name@, (#[trigger] sorted@[j]).provider_name@)
                || sorted@[i].provider_name@ == sorted@[j].provider_name@) && (sorted@[i].provider_name@ == sorted@[j].provider_name@
                ==> text_less(sorted@[i].model@, sorted@[j].model@) || sorted@[i].model@ == sorted@[j].model@),
{
    let ghost given = items@;
    let mut rest = items;
    let mut sorted: Vec<ModelUsage> = Vec::new();
    proof {
        given.to_multiset_ensures();
        sorted@.to_multiset_ensures();
    }
    while rest.len() > 0
        invariant
            sorted@.to_multiset().add(rest@.to_multiset()) == given.to_multiset(),
            model_usage_sorted(sorted@),
        decreases rest@.len(),
    {
        let ghost before_rest = rest@;
        let x = rest.pop().unwrap();
        proof {
            assert(rest@.push(x) =~= before_rest);
            rest@.to_multiset_ensures();
        }
        let mut p: usize = 0;
        while p < sorted.len()
            invariant_except_break
                true,
            invariant
                p <= sorted@.len(),
                forall|i: int| 0 <= i < p ==> !model_usage_before(x, #[trigger] sorted@[i]),
            ensures
                p <= sorted@.len(),
                forall|i: int| 0 <= i < p ==> !model_usage_before(x, #[trigger] sorted@[i]),
                p < sorted@.len() ==> model_usage_before(x, sorted@[p as int]),
            decreases sorted@.len() - p,
        {
            if model_usage_less(&x, &sorted[p]) {
                break;
            }
            p = p + 1;
        }
        let ghost old_sorted = sorted@;
        proof {
            lemma_insert_to_multiset(old_sorted, p as int, x);
            old_sorted.insert_ensures(p as int, x);
        }
        sorted.insert(p, x);
        proof {
            assert forall|i: int, j: int| 0 <= i < j < sorted@.len() implies !model_usage_before(
                #[trigger] sorted@[j],
                #[trigger] sorted@[i],
            ) by {
                if j < p {
                    assert(sorted@[i] == old_sorted[i] && sorted@[j] == old_sorted[j]);
                } else if j == p {
                    assert(sorted@[i] == old_sorted[i]);
                } else if i > p {
                    assert(sorted@[i] == old_sorted[i - 1] && sorted@[j] == old_sorted[j - 1]);
                } else if i == p {
                    assert(sorted@[j] == old_sorted[j - 1]);
                    if model_usage_before(old_sorted[j - 1], x) {
                        if j - 1 == p {
                            crate::text::lemma_text_less_irreflexive(old_sorted[j - 1].provider_name@);
                            crate::text::lemma_text_less_irreflexive(old_sorted[j - 1].model@);
                        } else {
                            assert(!model_usage_before(old_sorted[j - 1], old_sorted[p as int]));
                        }
                        lemma_before_transitive(old_sorted[j - 1], x, old_sorted[p as int]);
                    }
                } else {
                    assert(sorted@[i] == old_sorted[i] && sorted@[j] == old_sorted[j - 1]);
                }
            }
            assert(sorted@.to_multiset().add(rest@.to_multiset()) =~= given.to_multiset());
        }
    }
    proof {
        rest@.to_multiset_ensures();
        assert(rest@.to_multiset() =~= vstd::multiset::Multiset::empty());
        assert(sorted@.to_multiset() =~= given.to_multiset());
        lemma_model_usage_order(sorted@);
    }
    sorted
}

} // verus!

verus! {

/// The first allowance set for this connection id and model, if any.
pub open spec fn allowance_for(allowances: Seq<TokenAllowance>, id: Seq<char>, model: Seq<char>) -> Option<u64>
    decreases allowances.len(),
{
    if allowances.len() == 0 {
        None
    } else if allowances[0].connection_id@ == id && allowances[0].model@ == model {
        Some(allowances[0].tokens)
    } else {
        allowance_for(allowances.drop_first(), id, model)
    }
}

/// What remains of an allowance after `used` tokens: the difference, or zero
/// once the allowance is used up; `None` without an allowance.
pub open spec fn remaining_for(allowance: Option<u64>, used: u64) -> Option<u64> {
    match allowance {
        Some(a) => Some(if used <= a { (a - used) as u64 } else { 0 }),
        None => None,
    }
}

/// `u` reports the remaining allowance for its connection and model.
pub open spec fn reports_remaining(allowances: Seq<TokenAllowance>, u: ModelUsage) -> bool {
    u.remaining_tokens == remaining_for(allowance_for(allowances, u.connection_id@, u.model@), u.usage.total_tokens)
}

/// The remaining allowance for a connection id and model after `used` tokens.
pub fn remaining_tokens(allowances: &Vec<TokenAllowance>, id: &String, model: &String, used: u64) -> (r: Option<u64>)
    ensures
        r == remaining_for(allowance_for(allowances@, id@, model@), used),
{
    let mut i: usize = 0;
    assert(allowances@.skip(0) =~= allowances@);
    while i < allowances.len()
        invariant
            i <= allowances@.len(),
            allowance_for(allowances@, id@, model@) == allowance_for(allowances@.skip(i as int), id@, model@),
        decreases allowances@.len() - i,
    {
        assert(allowances@.skip(i as int).drop_first() =~= allowances@.skip(i + 1));
        assert(allowances@.skip(i as int)[0] == allowances@[i as int]);
        let a = &allowances[i];
        if a.connection_id == *id && a.model == *model {
            if used <= a.tokens {
                return Some(a.tokens - used);
            } else {
                return Some(0);
            }
        }
        i = i + 1;
    }
    None
}

/// `u` is the usage of one of the keys `keys`.
pub open spec fn usage_of_some_key(h: Seq<ChatResult>, keys: Seq<(Seq<char>, Seq<char>)>, u: ModelUsage) -> bool {
    exists|j: int| 0 <= j < keys.len() && is_model_usage(h, keys[j], u)
}

/// Some entry of `usages` is the usage of `key`.
pub open spec fn key_has_usage(h: Seq<ChatResult>, key: (Seq<char>, Seq<char>), usages: Seq<ModelUsage>) -> bool {
    exists|k: int| 0 <= k < usages.len() && is_model_usage(h, key, usages[k])
}

proof fn lemma_same_remaining(allowances: Seq<TokenAllowance>, unsorted: Seq<ModelUsage>, sorted: Seq<ModelUsage>)
    requires
        sorted.to_multiset() == unsorted.to_multiset(),
        forall|k: int| 0 <= k < unsorted.len() ==> reports_remaining(allowances, #[trigger] unsorted[k]),
    ensures
        forall|k: int| 0 <= k < sorted.len() ==> reports_remaining(allowances, #[trigger] sorted[k]),
{
    unsorted.to_multiset_ensures();
    sorted.to_multiset_ensures();
    assert forall|k: int| 0 <= k < sorted.len() implies reports_remaining(allowances, #[trigger] sorted[k]) by {
        assert(sorted.contains(sorted[k]));
        assert(unsorted.to_multiset().count(sorted[k]) > 0);
        assert(unsorted.contains(sorted[k]));
        let j = choose|j: int| 0 <= j < unsorted.len() && unsorted[j] == sorted[k];
        assert(reports_remaining(allowances, unsorted[j]));
    }
}

proof fn lemma_same_usages(h: Seq<ChatResult>, md: Seq<(Seq<char>, Seq<char>)>, unsorted: Seq<ModelUsage>, sorted: Seq<ModelUsage>)
    requires
        sorted.to_multiset() == unsorted.to_multiset(),
        unsorted.len() == md.len(),
        forall|k: int| 0 <= k < unsorted.len() ==> is_model_usage(h, md[k], #[trigger] unsorted[k]),
    ensures
        sorted.len() == md.len(),
        forall|k: int| 0 <= k < sorted.len() ==> usage_of_some_key(h, md, #[trigger] sorted[k]),
        forall|j: int| 0 <= j < md.len() ==> key_has_usage(h, #[trigger] md[j], sorted),
{
    unsorted.to_multiset_ensures();
    sorted.to_multiset_ensures();
    assert forall|k: int| 0 <= k < sorted.len() implies usage_of_some_key(h, md, #[trigger] sorted[k]) by {
        assert(sorted.contains(sorted[k]));
        assert(unsorted.to_multiset().count(sorted[k]) > 0);
        assert(unsorted.contains(sorted[k]));
        let j = choose|j: int| 0 <= j < unsorted.len() && unsorted[j] == sorted[k];
        assert(is_model_usage(h, md[j], unsorted[j]));
    }
    assert forall|j: int| 0 <= j < md.len() implies key_has_usage(h, #[trigger] md[j], sorted) by {
        assert(unsorted.contains(unsorted[j]));
        assert(sorted.to_multiset().count(unsorted[j]) > 0);
        assert(sorted.contains(unsorted[j]));
        let k = choose|k: int| 0 <= k < sorted.len() && sorted[k] == unsorted[j];
        assert(is_model_usage(h, md[j], sorted[k]));
    }
}

/// Whether the token sums of a history fit in 64 bits, as summarizing it
/// requires.
pub fn usage_sums_fit(history: &Vec<ChatResult>) -> (fit: bool)
    ensures
        fit == sums_fit(history@),
{
    let ghost h = history@;
    let mut input: u128 = 0;
    let mut output: u128 = 0;
    let mut tokens: u128 = 0;
    let mut i: usize = 0;
    while i < history.len()
        invariant
            h == history@,
            i <= h.len(),
            input == total(h, input_amount(), i as nat),
            output == total(h, output_amount(), i as nat),
            tokens == total(h, total_amount(), i as nat),
            input <= i * 0xffff_ffff_ffff_ffff,
            output <= i * 0xffff_ffff_ffff_ffff,
            tokens <= i * 0xffff_ffff_ffff_ffff,
            i <= usize::MAX,
        decreases h.len() - i,
    {
        assert(usize::MAX <= 0xffff_ffff_ffff_ffff);
        assert((i + 1) * 0xffff_ffff_ffff_ffff <= 0xffff_ffff_ffff_ffff * 0xffff_ffff_ffff_ffff) by (nonlinear_arith)
            requires
                i + 1 <= 0xffff_ffff_ffff_ffff,
        ;
        assert((i + 1) * 0xffff_ffff_ffff_ffff == i * 0xffff_ffff_ffff_ffff + 0xffff_ffff_ffff_ffff) by (nonlinear_arith);
        let r = &history[i];
        input = input + r.input_tokens as u128;
        output = output + r.output_tokens as u128;
        tokens = tokens + r.total_tokens as u128;
        i = i + 1;
    }
    input <= 0xffff_ffff_ffff_ffff && output <= 0xffff_ffff_ffff_ffff && tokens <= 0xffff_ffff_ffff_ffff
}

fn history_total(history: &Vec<ChatResult>, which: u8) -> (sum: u64)
    requires
        sums_fit(history@),
        which < 3,
    ensures
        sum == total(
            history@,
            if which == 0 {
                input_amount()
            } else if which == 1 {
                output_amount()
            } else {
                total_amount()
            },
            history@.len(),
        ),
{
    let ghost h = history@;
    let ghost amount = if which == 0 {
        input_amount()
    } else if which == 1 {
        output_amount()
    } else {
        total_amount()
    };
    let mut sum: u64 = 0;
    let mut i: usize = 0;
    while i < history.len()
        invariant
            h == history@,
            i <= h.len(),
            sums_fit(h),
            which < 3,
            amount == (if which == 0 {
                input_amount()
            } else if which == 1 {
                output_amount()
            } else {
                total_amount()
            }),
            sum == total(h, amount, i as nat),
        decreases h.len() - i,
    {
        proof {
            lemma_total_monotone(h, amount, (i + 1) as nat, h.len());
        }
        let r = &history[i];
        let add = if which == 0 {
            r.input_tokens
        } else if which == 1 {
            r.output_tokens
        } else {
            r.total_tokens
        };
        sum = sum + add;
        i = i + 1;
    }
    sum
}

fn record_keys(history: &Vec<ChatResult>, by_model: bool) -> (keys: Vec<(String, String)>)
    ensures
        key_views(keys@) == (if by_model {
            model_keys(history@)
        } else {
            connection_keys(history@)
        }),
{
    let ghost want = if by_model {
        model_keys(history@)
    } else {
        connection_keys(history@)
    };
    let mut keys: Vec<(String, String)> = Vec::new();
    let mut i: usize = 0;
    while i < history.len()
        invariant
            i <= history@.len(),
            want == (if by_model {
                model_keys(history@)
            } else {
                connection_keys(history@)
            }),
            key_views(keys@) == want.take(i as int),
        decreases history@.len() - i,
    {
        let r = &history[i];
        let key = if by_model {
            (r.connection_id.clone(), r.model.clone())
        } else {
            (r.connection_id.clone(), String::new())
        };
        proof {
            if by_model {
                assert(want[i as int] == model_key(history@[i as int]));
            } else {
                assert(want[i as int] == connection_key(history@[i as int]));
            }
            assert(key_view(key) == want[i as int]);
        }
        let ghost before = keys@;
        keys.push(key);
        assert(key_views(keys@) =~= key_views(before).push(want[i as int]));
        assert(want.take(i + 1) =~= want.take(i as int).push(want[i as int]));
        i = i + 1;
    }
    assert(want.take(history@.len() as int) =~= want);
    keys
}

/// The usage summary of a history: request and token totals, usage by
/// connection in order of first use, usage by model sorted by provider name
/// and model, and the positions of the newest records.
pub fn summarize_usage(history: &Vec<ChatResult>, allowances: &Vec<TokenAllowance>) -> (summary: UsageTotals)
    requires
        sums_fit(history@),
    ensures
        summary.total_requests == history@.len(),
        summary.input_tokens == total(history@, input_amount(), history@.len()),
        summary.output_tokens == total(history@, output_amount(), history@.len()),
        summary.total_tokens == total(history@, total_amount(), history@.len()),
        summary.by_connection@.len() == distinct_keys(connection_keys(history@), history@.len()).len(),
        forall|k: int|
            0 <= k < summary.by_connection@.len() ==> is_connection_usage(
                history@,
                distinct_keys(connection_keys(history@), history@.len())[k],
                #[trigger] summary.by_connection@[k],
            ),
        summary.by_model@.len() == distinct_keys(model_keys(history@), history@.len()).len(),
        forall|k: int|
            0 <= k < summary.by_model@.len() ==> usage_of_some_key(
                history@,
                distinct_keys(model_keys(history@), history@.len()),
                #[trigger] summary.by_model@[k],
            ),
        forall|j: int|
            0 <= j < distinct_keys(model_keys(history@), history@.len()).len() ==> key_has_usage(
                history@,
                #[trigger] distinct_keys(model_keys(history@), history@.len())[j],
                summary.by_model@,
            ),
        forall|k: int|
            0 <= k < summary.by_model@.len() ==> reports_remaining(allowances@, #[trigger] summary.by_model@[k]),
        model_usage_sorted(summary.by_model@),
        forall|i: int, j: int|
            0 <= i < j < summary.by_model@.len() ==> (text_less((#[trigger] summary.by_model@[i]).provider_name@, (#[trigger] summary.by_model@[j]).provider_name@)
                || summary.by_model@[i].provider_name@ == summary.by_model@[j].provider_name@) && (summary.by_model@[i].provider_name@ == summary.by_model@[j].provider_name@
                ==> text_less(summary.by_model@[i].model@, summary.by_model@[j].model@) || summary.by_model@[i].model@ == summary.by_model@[j].model@),
        summary.recent@.map_values(|i: usize| i as int) == recent_positions(history@.len()),
{
    let ghost h = history@;
    let n = history.len();
    let input_tokens = history_total(history, 0);
    let output_tokens = history_total(history, 1);
    let total_tokens = history_total(history, 2);

    let connection_key_list = record_keys(history, false);
    assert(key_views(connection_key_list@).len() == connection_key_list@.len());
    let connection_groups = group_by_key(history, &connection_key_list);
    let ghost cks = connection_keys(h);
    let ghost cd = distinct_keys(cks, h.len());
    let mut by_connection: Vec<ConnectionUsage> = Vec::new();
    let mut rest = connection_groups;
    let ghost cgroups = rest@;
    let group_count = rest.len();
    let mut taken: usize = 0;
    proof {
        rest@.to_multiset_ensures();
    }
    while rest.len() > 0
        invariant
            h == history@,
            cks == connection_keys(h),
            cd == distinct_keys(cks, h.len()),
            cgroups.len() == cd.len(),
            cgroups.len() == group_count,
            forall|k: int| 0 <= k < cgroups.len() ==> describes_group(h, cks, cd[k], #[trigger] cgroups[k], h.len()),
            taken <= cgroups.len(),
            rest@ == cgroups.subrange(taken as int, cgroups.len() as int),
            by_connection@.len() == taken,
            forall|k: int| 0 <= k < taken ==> is_connection_usage(h, cd[k], #[trigger] by_connection@[k]),
        decreases rest@.len(),
    {
        let g = rest.remove(0);
        assert(g == cgroups[taken as int]);
        proof {
            crate::usage::lemma_key_positions(cks, cd[taken as int], h.len());
        }
        let first = &history[g.first];
        let entry = ConnectionUsage {
            connection_id: first.connection_id.clone(),
            connection_name: first.connection_name.clone(),
            usage: g,
        };
        by_connection.push(entry);
        taken = taken + 1;
        assert(rest@ =~= cgroups.subrange(taken as int, cgroups.len() as int));
    }

    let model_key_list = record_keys(history, true);
    assert(key_views(model_key_list@).len() == model_key_list@.len());
    let model_groups = group_by_key(history, &model_key_list);
    let ghost mks = model_keys(h);
    let ghost md = distinct_keys(mks, h.len());
    let mut unsorted: Vec<ModelUsage> = Vec::new();
    let mut rest = model_groups;
    let ghost mgroups = rest@;
    let group_count = rest.len();
    let mut taken: usize = 0;
    while rest.len() > 0
        invariant
            h == history@,
            mks == model_keys(h),
            md == distinct_keys(mks, h.len()),
            mgroups.len() == md.len(),
            mgroups.len() == group_count,
            forall|k: int| 0 <= k < mgroups.len() ==> describes_group(h, mks, md[k], #[trigger] mgroups[k], h.len()),
            taken <= mgroups.len(),
            rest@ == mgroups.subrange(taken as int, mgroups.len() as int),
            unsorted@.len() == taken,
            forall|k: int| 0 <= k < taken ==> is_model_usage(h, md[k], #[trigger] unsorted@[k]),
            forall|k: int| 0 <= k < taken ==> reports_remaining(allowances@, #[trigger] unsorted@[k]),
        decreases rest@.len(),
    {
        let g = rest.remove(0);
        assert(g == mgroups[taken as int]);
        proof {
            crate::usage::lemma_key_positions(mks, md[taken as int], h.len());
        }
        let first = &history[g.first];
        let remaining = remaining_tokens(allowances, &first.connection_id, &first.model, g.total_tokens);
        let entry = ModelUsage {
            connection_id: first.connection_id.clone(),
            provider_name: first.connection_name.clone(),
            model: first.model.clone(),
            usage: g,
            remaining_tokens: remaining,
        };
        unsorted.push(entry);
        taken = taken + 1;
        assert(rest@ =~= mgroups.subrange(taken as int, mgroups.len() as int));
    }
    let ghost unsorted_view = unsorted@;
    let by_model = sort_model_usage(unsorted);
    proof {
        lemma_same_usages(h, md, unsorted_view, by_model@);
        lemma_same_remaining(allowances@, unsorted_view, by_model@);
        lemma_model_usage_order(by_model@);
    }

    let mut recent: Vec<usize> = Vec::new();
    let count = if n < RECENT_LIMIT { n } else { RECENT_LIMIT };
    let mut k: usize = 0;
    while k < count
        invariant
            n == h.len(),
            count == (if n < RECENT_LIMIT { n } else { RECENT_LIMIT }),
            k <= count,
            recent@.map_values(|i: usize| i as int) == recent_positions(n as nat).take(k as int),
        decreases count - k,
    {
        let ghost before = recent@;
        recent.push(n - 1 - k);
        assert(recent@.map_values(|i: usize| i as int) =~= before.map_values(|i: usize| i as int).push(
            n - 1 - k,
        ));
        assert(recent_positions(n as nat).take(k + 1) =~= recent_positions(n as nat).take(k as int).push(
            n - 1 - k,
        ));
        k = k + 1;
    }
    assert(recent_positions(n as nat).take(count as int) =~= recent_positions(n as nat));
    assert(usize::MAX <= u64::MAX);
    UsageTotals {
        total_requests: n as u64,
        input_tokens,
        output_tokens,
        total_tokens,
        by_connection,
        by_model,
        recent,
    }
}

} // verus!

verus! {

/// The usage record of a successful reply from `candidate`.
pub fn usage_record(
    candidate: &crate::model::Connection,
    model: String,
    reply: crate::provider::ProviderReply,
    estimated_cost_bits: u64,
    latency_ms_bits: u64,
    created_at: u64,
    fallback_attempts: Vec<String>,
) -> (record: ChatResult)
    requires
        reply.input_tokens + reply.output_tokens <= u64::MAX,
    ensures
        record.connection_id == candidate.id,
        record.connection_name == candidate.name,
        record.model == model,
        record.response == reply.text,
        record.input_tokens == reply.input_tokens,
        record.output_tokens == reply.output_tokens,
        record.total_tokens == reply.input_tokens + reply.output_tokens,
        record.estimated_cost_bits == estimated_cost_bits,
        record.latency_ms_bits == latency_ms_bits,
        record.created_at == created_at,
        record.fallback_attempts == fallback_attempts,
{
    ChatResult {
        connection_id: candidate.id.clone(),
        connection_name: candidate.name.clone(),
        model,
        response: reply.text,
        input_tokens: reply.input_tokens,
        output_tokens: reply.output_tokens,
        total_tokens: reply.input_tokens + reply.output_tokens,
        estimated_cost_bits,
        latency_ms_bits,
        created_at,
        fallback_attempts,
    }
}

} // verus!

verus! {

proof fn lemma_key_positions_contains(keys: Seq<(Seq<char>, Seq<char>)>, key: (Seq<char>, Seq<char>), n: nat, j: int)
    requires
        n <= keys.len(),
    ensures
        key_positions(keys, key, n).contains(j) <==> (0 <= j < n && keys[j] == key),
    decreases n,
{
    if n > 0 {
        lemma_key_positions_contains(keys, key, (n - 1) as nat, j);
        let prev = key_positions(keys, key, (n - 1) as nat);
        if keys[n - 1] == key {
            if prev.contains(j) {
                let p = choose|p: int| 0 <= p < prev.len() && prev[p] == j;
                assert(prev.push(n - 1)[p] == j);
            }
            if j == n - 1 {
                assert(prev.push(n - 1)[prev.len() as int] == j);
            }
            let pushed = prev.push(n - 1);
            if pushed.contains(j) && j != n - 1 {
                let p = choose|p: int| 0 <= p < pushed.len() && #[trigger] pushed[p] == j;
                assert(prev[p] == j);
            }
        }
    }
}

/// Usage by model is keyed by the pair of connection id and model: two
/// records fall in the same by-model group exactly when both their
/// connection ids and their models are equal.
pub proof fn lemma_model_groups_are_pairs(history: Seq<ChatResult>, i: int, j: int)
    requires
        0 <= i < history.len(),
        0 <= j < history.len(),
    ensures
        key_positions(model_keys(history), model_key(history[i]), history.len()).contains(j) <==> (
        history[j].connection_id@ == history[i].connection_id@ && history[j].model@ == history[i].model@),
{
    lemma_key_positions_contains(model_keys(history), model_key(history[i]), history.len(), j);
    assert(model_keys(history)[j] == model_key(history[j]));
}

} // verus!

verus! {

/// The sum of `amount` over the groups of the listed keys.
pub open spec fn groups_total(
    history: Seq<ChatResult>,
    keys: Seq<(Seq<char>, Seq<char>)>,
    listed: Seq<(Seq<char>, Seq<char>)>,
    amount: spec_fn(ChatResult) -> int,
    n: nat,
) -> int
    decreases listed.len(),
{
    if listed.len() == 0 {
        0
    } else {
        groups_total(history, keys, listed.drop_last(), amount, n) + key_total(
            history,
            keys,
            listed.last(),
            amount,
            n,
        )
    }
}

proof fn lemma_groups_total_step(
    history: Seq<ChatResult>,
    keys: Seq<(Seq<char>, Seq<char>)>,
    listed: Seq<(Seq<char>, Seq<char>)>,
    amount: spec_fn(ChatResult) -> int,
    n: nat,
)
    requires
        0 < n <= keys.len(),
        listed.no_duplicates(),
    ensures
        groups_total(history, keys, listed, amount, n) == groups_total(history, keys, listed, amount, (n - 1) as nat)
            + if listed.contains(keys[n - 1]) {
            amount(history[n - 1])
        } else {
            0
        },
    decreases listed.len(),
{
    if listed.len() > 0 {
        let rest = listed.drop_last();
        assert(rest.no_duplicates());
        lemma_groups_total_step(history, keys, rest, amount, n);
        let x = keys[n - 1];
        if listed.contains(x) {
            if listed.last() != x {
                let p = choose|p: int| 0 <= p < listed.len() && listed[p] == x;
                assert(rest[p] == x);
            } else {
                assert(!rest.contains(x)) by {
                    if rest.contains(x) {
                        let p = choose|p: int| 0 <= p < rest.len() && rest[p] == x;
                        assert(listed[p] == listed[listed.len() - 1]);
                    }
                }
            }
        } else {
            assert(!rest.contains(x)) by {
                if rest.contains(x) {
                    let p = choose|p: int| 0 <= p < rest.len() && rest[p] == x;
                    assert(listed[p] == x);
                }
            }
        }
    }
}

proof fn lemma_groups_total_absent(
    history: Seq<ChatResult>,
    keys: Seq<(Seq<char>, Seq<char>)>,
    listed: Seq<(Seq<char>, Seq<char>)>,
    amount: spec_fn(ChatResult) -> int,
)
    ensures
        groups_total(history, keys, listed, amount, 0) == 0,
    decreases listed.len(),
{
    if listed.len() > 0 {
        lemma_groups_total_absent(history, keys, listed.drop_last(), amount);
    }
}

/// Every record counts in exactly one group: over the groups of all
/// distinct keys, the sums of any amount add up to its total over the
/// history. This holds for usage by connection and for usage by model.
pub proof fn lemma_groups_add_up(
    history: Seq<ChatResult>,
    keys: Seq<(Seq<char>, Seq<char>)>,
    amount: spec_fn(ChatResult) -> int,
    n: nat,
)
    requires
        n <= keys.len(),
    ensures
        groups_total(history, keys, distinct_keys(keys, n), amount, n) == total(history, amount, n),
    decreases n,
{
    if n == 0 {
        lemma_groups_total_absent(history, keys, Seq::empty(), amount);
    } else {
        let m = (n - 1) as nat;
        let prev = distinct_keys(keys, m);
        let x = keys[n - 1];
        lemma_groups_add_up(history, keys, amount, m);
        lemma_distinct_keys_unique(keys, n);
        lemma_distinct_keys_unique(keys, m);
        lemma_distinct_keys(keys, n);
        assert(distinct_keys(keys, n).contains(x));
        lemma_groups_total_step(history, keys, distinct_keys(keys, n), amount, n);
        if !prev.contains(x) {
            lemma_distinct_keys(keys, m);
            assert forall|j: int| 0 <= j < m implies keys[j] != x by {
                if keys[j] == x {
                    assert(prev.contains(x));
                }
            }
            lemma_key_total_absent(history, keys, x, amount, m);
            assert(prev.push(x).drop_last() =~= prev);
        }
    }
}

} // verus!

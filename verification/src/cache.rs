use vstd::prelude::*;
use crate::text::str_eq;

verus! {

/// One cached response: the command it was generated for and the text.
pub struct CacheEntry {
    pub command: String,
    pub text: String,
}

/// Mathematical image of a cache entry.
#[verifier::ext_equal]
pub struct EntryV {
    pub command: Seq<char>,
    pub text: Seq<char>,
}

impl View for CacheEntry {
    type V = EntryV;

    open spec fn view(&self) -> EntryV {
        EntryV { command: self.command@, text: self.text@ }
    }
}

impl DeepView for CacheEntry {
    type V = EntryV;

    open spec fn deep_view(&self) -> EntryV {
        self.view()
    }
}

/// The cached responses of one model.
pub struct ModelCache {
    pub model: String,
    pub entries: Vec<CacheEntry>,
}

/// Mathematical image of one model's cache.
#[verifier::ext_equal]
pub struct ModelV {
    pub model: Seq<char>,
    pub entries: Seq<EntryV>,
}

impl View for ModelCache {
    type V = ModelV;

    open spec fn view(&self) -> ModelV {
        ModelV { model: self.model@, entries: self.entries.deep_view() }
    }
}

impl DeepView for ModelCache {
    type V = ModelV;

    open spec fn deep_view(&self) -> ModelV {
        self.view()
    }
}

/// The mapping a list of entries stands for; the first entry with a given
/// command wins, so the value of a duplicated command is the earliest one.
pub open spec fn inner_map(es: Seq<EntryV>) -> Map<Seq<char>, Seq<char>>
    decreases es.len(),
{
    if es.len() == 0 {
        Map::empty()
    } else {
        inner_map(es.drop_first()).insert(es[0].command, es[0].text)
    }
}

/// The two-level mapping the whole buffer stands for.
pub open spec fn buffer_map(bs: Seq<ModelV>) -> Map<Seq<char>, Map<Seq<char>, Seq<char>>>
    decreases bs.len(),
{
    if bs.len() == 0 {
        Map::empty()
    } else {
        buffer_map(bs.drop_first()).insert(bs[0].model, inner_map(bs[0].entries))
    }
}

/// The inner mapping stored under model `m`, or the empty mapping if `m` is
/// not present.
pub open spec fn inner_of(bs: Seq<ModelV>, m: Seq<char>) -> Map<Seq<char>, Seq<char>> {
    if buffer_map(bs).contains_key(m) {
        buffer_map(bs)[m]
    } else {
        Map::empty()
    }
}

/// `es` without every entry whose command is `c`.
pub open spec fn drop_cmd(es: Seq<EntryV>, c: Seq<char>) -> Seq<EntryV>
    decreases es.len(),
{
    if es.len() == 0 {
        Seq::empty()
    } else if es[0].command == c {
        drop_cmd(es.drop_first(), c)
    } else {
        seq![es[0]] + drop_cmd(es.drop_first(), c)
    }
}

proof fn lemma_inner_map_first(es: Seq<EntryV>, c: Seq<char>, i: int)
    requires
        0 <= i < es.len(),
        es[i].command == c,
        forall|j: int| 0 <= j < i ==> es[j].command != c,
    ensures
        inner_map(es).contains_key(c),
        inner_map(es)[c] == es[i].text,
    decreases i,
{
    if i == 0 {
    } else {
        let t = es.drop_first();
        assert forall|j: int| 0 <= j < i - 1 implies t[j].command != c by {
            assert(t[j] == es[j + 1]);
        }
        assert(t[i - 1] == es[i]);
        lemma_inner_map_first(t, c, i - 1);
    }
}

proof fn lemma_inner_map_absent(es: Seq<EntryV>, c: Seq<char>)
    requires
        forall|j: int| 0 <= j < es.len() ==> es[j].command != c,
    ensures
        !inner_map(es).contains_key(c),
    decreases es.len(),
{
    if es.len() == 0 {
    } else {
        let t = es.drop_first();
        assert forall|j: int| 0 <= j < t.len() implies t[j].command != c by {
            assert(t[j] == es[j + 1]);
        }
        lemma_inner_map_absent(t, c);
    }
}

proof fn lemma_drop_cmd_snoc(es: Seq<EntryV>, e: EntryV, c: Seq<char>)
    ensures
        drop_cmd(es.push(e), c) == if e.command == c {
            drop_cmd(es, c)
        } else {
            drop_cmd(es, c).push(e)
        },
    decreases es.len(),
{
    let p = es.push(e);
    if es.len() == 0 {
        assert(p[0] == e);
        assert(p.drop_first() =~= Seq::<EntryV>::empty());
        assert(drop_cmd(Seq::<EntryV>::empty(), c) == Seq::<EntryV>::empty());
        if e.command == c {
            assert(drop_cmd(p, c) =~= drop_cmd(es, c));
        } else {
            assert(drop_cmd(p, c) == seq![p[0]] + drop_cmd(p.drop_first(), c));
            assert(drop_cmd(p, c) =~= drop_cmd(es, c).push(e));
        }
    } else {
        assert(p[0] == es[0]);
        assert(p.drop_first() =~= es.drop_first().push(e));
        lemma_drop_cmd_snoc(es.drop_first(), e, c);
        if e.command == c {
            assert(drop_cmd(p, c) =~= drop_cmd(es, c));
        } else {
            if es[0].command == c {
                assert(drop_cmd(p, c) =~= drop_cmd(es, c).push(e));
            } else {
                assert(drop_cmd(p, c) == seq![es[0]] + drop_cmd(es.drop_first(), c).push(e));
                assert(drop_cmd(p, c) =~= drop_cmd(es, c).push(e));
            }
        }
    }
}

proof fn lemma_drop_cmd_clean(es: Seq<EntryV>, c: Seq<char>)
    ensures
        forall|j: int|
            0 <= j < drop_cmd(es, c).len() ==> drop_cmd(es, c)[j].command != c,
    decreases es.len(),
{
    if es.len() == 0 {
    } else {
        lemma_drop_cmd_clean(es.drop_first(), c);
        if es[0].command == c {
            assert(drop_cmd(es, c) == drop_cmd(es.drop_first(), c));
        }
        if es[0].command != c {
            assert forall|j: int| 0 <= j < drop_cmd(es, c).len() implies drop_cmd(
                es,
                c,
            )[j].command != c by {
                if j > 0 {
                    assert(drop_cmd(es, c)[j] == drop_cmd(es.drop_first(), c)[j - 1]);
                }
            }
        }
    }
}

proof fn lemma_inner_map_drop_cmd(es: Seq<EntryV>, c: Seq<char>)
    ensures
        inner_map(drop_cmd(es, c)) =~= inner_map(es).remove(c),
    decreases es.len(),
{
    if es.len() == 0 {
        assert(inner_map(drop_cmd(es, c)) =~= inner_map(es).remove(c));
    } else {
        let t = es.drop_first();
        lemma_inner_map_drop_cmd(t, c);
        if es[0].command == c {
            assert(inner_map(es).remove(c) =~= inner_map(t).remove(c));
        } else {
            let d = drop_cmd(es, c);
            assert(d == seq![es[0]] + drop_cmd(t, c));
            assert(d.len() > 0);
            assert(d[0] == es[0]);
            assert(d.drop_first() =~= drop_cmd(t, c));
            assert(inner_map(d) == inner_map(drop_cmd(t, c)).insert(es[0].command, es[0].text));
            assert(inner_map(d) =~= inner_map(es).remove(c));
        }
    }
}

proof fn lemma_inner_map_snoc_new(es: Seq<EntryV>, e: EntryV)
    requires
        forall|j: int| 0 <= j < es.len() ==> es[j].command != e.command,
    ensures
        inner_map(es.push(e)) =~= inner_map(es).insert(e.command, e.text),
    decreases es.len(),
{
    let p = es.push(e);
    if es.len() == 0 {
        assert(p.drop_first() =~= Seq::<EntryV>::empty());
        assert(p[0] == e);
        assert(inner_map(Seq::<EntryV>::empty()) == Map::<Seq<char>, Seq<char>>::empty());
        assert(inner_map(p) =~= inner_map(es).insert(e.command, e.text));
    } else {
        let t = es.drop_first();
        assert forall|j: int| 0 <= j < t.len() implies t[j].command != e.command by {
            assert(t[j] == es[j + 1]);
        }
        lemma_inner_map_snoc_new(t, e);
        assert(p[0] == es[0]);
        assert(p.drop_first() =~= t.push(e));
        assert(inner_map(p) == inner_map(t.push(e)).insert(es[0].command, es[0].text));
        assert(inner_map(p) =~= inner_map(t).insert(e.command, e.text).insert(
            es[0].command,
            es[0].text,
        ));
        assert(es[0].command != e.command);
        assert(inner_map(es) == inner_map(t).insert(es[0].command, es[0].text));
        assert(inner_map(p) =~= inner_map(es).insert(e.command, e.text));
    }
}

/// Looks a command up in one model's entry list; the first match wins.
pub fn entries_get(entries: &Vec<CacheEntry>, command: &str) -> (r: Option<String>)
    ensures
        match r {
            Some(t) => inner_map(entries.deep_view()).contains_key(command@) && t@ == inner_map(
                entries.deep_view(),
            )[command@],
            None => !inner_map(entries.deep_view()).contains_key(command@),
        },
{
    let ghost es = entries.deep_view();
    let mut i: usize = 0;
    while i < entries.len()
        invariant
            es == entries.deep_view(),
            es.len() == entries@.len(),
            i <= es.len(),
            forall|j: int| 0 <= j < i ==> es[j].command != command@,
        decreases entries@.len() - i,
    {
        if str_eq(entries[i].command.as_str(), command) {
            proof {
                assert(es[i as int].command == command@);
                lemma_inner_map_first(es, command@, i as int);
            }
            return Some(entries[i].text.clone());
        }
        i = i + 1;
    }
    proof {
        lemma_inner_map_absent(es, command@);
    }
    None
}

/// Removes every entry for `command` from one model's entry list.
pub fn entries_remove(entries: &mut Vec<CacheEntry>, command: &str)
    ensures
        final(entries).deep_view() == drop_cmd(old(entries).deep_view(), command@),
        inner_map(final(entries).deep_view()) =~= inner_map(old(entries).deep_view()).remove(
            command@,
        ),
        forall|j: int|
            0 <= j < final(entries).deep_view().len() ==> final(entries).deep_view()[j].command
                != command@,
{
    let ghost orig = old(entries).deep_view();
    let mut i: usize = 0;
    let ghost mut k: int = 0;
    while i < entries.len()
        invariant
            0 <= k <= orig.len(),
            i <= entries@.len(),
            entries.deep_view() =~= drop_cmd(orig.take(k), command@) + orig.skip(k),
            i as int == drop_cmd(orig.take(k), command@).len(),
        decreases orig.len() - k,
    {
        let ghost pre = entries.deep_view();
        let ghost pre_s = entries@;
        let ghost dropped = drop_cmd(orig.take(k), command@);
        proof {
            assert(pre[i as int] == orig[k]);
            lemma_drop_cmd_snoc(orig.take(k), orig[k], command@);
            assert(orig.take(k).push(orig[k]) =~= orig.take(k + 1));
        }
        if str_eq(entries[i].command.as_str(), command) {
            entries.remove(i);
            proof {
                assert(orig[k].command == command@);
                pre_s.remove_ensures(i as int);
                pre.remove_ensures(i as int);
                assert(entries@ == pre_s.remove(i as int));
                assert forall|j: int|
                    0 <= j < entries.deep_view().len() implies entries.deep_view()[j] == pre.remove(
                    i as int,
                )[j] by {
                    if j < i {
                        assert(entries@[j] == pre_s[j]);
                        assert(pre[j] == pre_s[j].deep_view());
                    } else {
                        assert(entries@[j] == pre_s[j + 1]);
                        assert(pre[j + 1] == pre_s[j + 1].deep_view());
                    }
                }
                assert(entries.deep_view() =~= pre.remove(i as int));
                assert(pre.remove(i as int) =~= dropped + orig.skip(k + 1));
                assert(entries.deep_view() =~= drop_cmd(orig.take(k + 1), command@) + orig.skip(
                    k + 1,
                ));
                k = k + 1;
            }
        } else {
            i = i + 1;
            proof {
                assert(orig[k].command != command@);
                assert(pre =~= dropped.push(orig[k]) + orig.skip(k + 1));
                assert(entries.deep_view() =~= drop_cmd(orig.take(k + 1), command@) + orig.skip(
                    k + 1,
                ));
                k = k + 1;
            }
        }
    }
    proof {
        assert(k == orig.len());
        assert(orig.take(k) =~= orig);
        assert(orig.skip(k) =~= Seq::<EntryV>::empty());
        assert(entries.deep_view() =~= drop_cmd(orig, command@));
        lemma_inner_map_drop_cmd(orig, command@);
        lemma_drop_cmd_clean(orig, command@);
    }
}

/// Inserts or overwrites the entry for `command` in one model's entry list.
pub fn entries_put(entries: &mut Vec<CacheEntry>, command: &str, text: &str)
    ensures
        inner_map(final(entries).deep_view()) =~= inner_map(old(entries).deep_view()).insert(
            command@,
            text@,
        ),
{
    entries_remove(entries, command);
    let ghost cleaned = entries.deep_view();
    let e = CacheEntry { command: String::from_str(command), text: String::from_str(text) };
    entries.push(e);
    proof {
        assert(entries.deep_view() =~= cleaned.push(
            EntryV { command: command@, text: text@ },
        ));
        lemma_inner_map_snoc_new(cleaned, EntryV { command: command@, text: text@ });
        assert(inner_map(cleaned).remove(command@).insert(command@, text@) =~= inner_map(
            old(entries).deep_view(),
        ).insert(command@, text@));
    }
}

proof fn lemma_buffer_map_first(bs: Seq<ModelV>, m: Seq<char>, i: int)
    requires
        0 <= i < bs.len(),
        bs[i].model == m,
        forall|j: int| 0 <= j < i ==> bs[j].model != m,
    ensures
        buffer_map(bs).contains_key(m),
        buffer_map(bs)[m] == inner_map(bs[i].entries),
    decreases i,
{
    if i == 0 {
    } else {
        let t = bs.drop_first();
        assert forall|j: int| 0 <= j < i - 1 implies t[j].model != m by {
            assert(t[j] == bs[j + 1]);
        }
        assert(t[i - 1] == bs[i]);
        lemma_buffer_map_first(t, m, i - 1);
    }
}

proof fn lemma_buffer_map_absent(bs: Seq<ModelV>, m: Seq<char>)
    requires
        forall|j: int| 0 <= j < bs.len() ==> bs[j].model != m,
    ensures
        !buffer_map(bs).contains_key(m),
    decreases bs.len(),
{
    if bs.len() == 0 {
    } else {
        let t = bs.drop_first();
        assert forall|j: int| 0 <= j < t.len() implies t[j].model != m by {
            assert(t[j] == bs[j + 1]);
        }
        lemma_buffer_map_absent(t, m);
    }
}

proof fn lemma_buffer_map_update(bs: Seq<ModelV>, bs2: Seq<ModelV>, i: int)
    requires
        bs.len() == bs2.len(),
        0 <= i < bs.len(),
        forall|j: int| 0 <= j < bs.len() && j != i ==> bs2[j] == bs[j],
        bs2[i].model == bs[i].model,
        forall|j: int| 0 <= j < i ==> bs[j].model != bs[i].model,
    ensures
        buffer_map(bs2) =~= buffer_map(bs).insert(bs[i].model, inner_map(bs2[i].entries)),
    decreases i,
{
    if i == 0 {
        assert(bs2.drop_first() =~= bs.drop_first());
        assert(buffer_map(bs2) == buffer_map(bs2.drop_first()).insert(
            bs2[0].model,
            inner_map(bs2[0].entries),
        ));
        assert(buffer_map(bs2) =~= buffer_map(bs).insert(bs[0].model, inner_map(bs2[0].entries)));
    } else {
        let t = bs.drop_first();
        let t2 = bs2.drop_first();
        assert(bs2[0] == bs[0]);
        assert forall|j: int| 0 <= j < t.len() && j != i - 1 implies t2[j] == t[j] by {
            assert(t2[j] == bs2[j + 1]);
            assert(t[j] == bs[j + 1]);
        }
        assert(t2[i - 1] == bs2[i]);
        assert(t[i - 1] == bs[i]);
        assert forall|j: int| 0 <= j < i - 1 implies #[trigger] t[j].model != t[i - 1].model by {
            assert(t[j] == bs[j + 1]);
        }
        lemma_buffer_map_update(t, t2, i - 1);
        assert(bs[0].model != bs[i].model);
        assert(buffer_map(bs2) == buffer_map(t2).insert(bs[0].model, inner_map(bs[0].entries)));
        assert(buffer_map(bs2) =~= buffer_map(bs).insert(bs[i].model, inner_map(bs2[i].entries)));
    }
}

proof fn lemma_buffer_map_snoc_new(bs: Seq<ModelV>, mc: ModelV)
    requires
        forall|j: int| 0 <= j < bs.len() ==> bs[j].model != mc.model,
    ensures
        buffer_map(bs.push(mc)) =~= buffer_map(bs).insert(mc.model, inner_map(mc.entries)),
    decreases bs.len(),
{
    let p = bs.push(mc);
    if bs.len() == 0 {
        assert(p.drop_first() =~= Seq::<ModelV>::empty());
        assert(p[0] == mc);
        assert(buffer_map(Seq::<ModelV>::empty()) == Map::<
            Seq<char>,
            Map<Seq<char>, Seq<char>>,
        >::empty());
        assert(buffer_map(p) =~= buffer_map(bs).insert(mc.model, inner_map(mc.entries)));
    } else {
        let t = bs.drop_first();
        assert forall|j: int| 0 <= j < t.len() implies t[j].model != mc.model by {
            assert(t[j] == bs[j + 1]);
        }
        lemma_buffer_map_snoc_new(t, mc);
        assert(p[0] == bs[0]);
        assert(p.drop_first() =~= t.push(mc));
        assert(buffer_map(p) == buffer_map(t.push(mc)).insert(bs[0].model, inner_map(bs[0].entries)));
        assert(buffer_map(p) =~= buffer_map(t).insert(mc.model, inner_map(mc.entries)).insert(
            bs[0].model,
            inner_map(bs[0].entries),
        ));
        assert(bs[0].model != mc.model);
        assert(buffer_map(bs) == buffer_map(t).insert(bs[0].model, inner_map(bs[0].entries)));
        assert(buffer_map(p) =~= buffer_map(bs).insert(mc.model, inner_map(mc.entries)));
    }
}

proof fn lemma_buffer_map_remove_each(bs: Seq<ModelV>, bs2: Seq<ModelV>, c: Seq<char>)
    requires
        bs.len() == bs2.len(),
        forall|j: int| 0 <= j < bs.len() ==> bs2[j].model == bs[j].model,
        forall|j: int|
            0 <= j < bs.len() ==> inner_map(bs2[j].entries) == inner_map(bs[j].entries).remove(c),
    ensures
        forall|m: Seq<char>|
            buffer_map(bs2).contains_key(m) <==> buffer_map(bs).contains_key(m),
        forall|m: Seq<char>|
            #[trigger] buffer_map(bs).contains_key(m) ==> buffer_map(bs2)[m] == buffer_map(
                bs,
            )[m].remove(c),
    decreases bs.len(),
{
    if bs.len() == 0 {
    } else {
        let t = bs.drop_first();
        let t2 = bs2.drop_first();
        assert forall|j: int| 0 <= j < t.len() implies t2[j].model == t[j].model && inner_map(
            t2[j].entries,
        ) == inner_map(t[j].entries).remove(c) by {
            assert(t[j] == bs[j + 1]);
            assert(t2[j] == bs2[j + 1]);
        }
        lemma_buffer_map_remove_each(t, t2, c);
        assert(bs2[0].model == bs[0].model);
        assert(buffer_map(bs) == buffer_map(t).insert(bs[0].model, inner_map(bs[0].entries)));
        assert(buffer_map(bs2) == buffer_map(t2).insert(bs[0].model, inner_map(bs2[0].entries)));
    }
}

/// Looks up the cached response of `model` for `command`.
pub fn buffer_get(buffer: &Vec<ModelCache>, model: &str, command: &str) -> (r: Option<String>)
    ensures
        match r {
            Some(t) => {
                &&& buffer_map(buffer.deep_view()).contains_key(model@)
                &&& buffer_map(buffer.deep_view())[model@].contains_key(command@)
                &&& t@ == buffer_map(buffer.deep_view())[model@][command@]
            },
            None => !buffer_map(buffer.deep_view()).contains_key(model@) || !buffer_map(
                buffer.deep_view(),
            )[model@].contains_key(command@),
        },
{
    let ghost bv = buffer.deep_view();
    let mut i: usize = 0;
    while i < buffer.len()
        invariant
            bv == buffer.deep_view(),
            bv.len() == buffer@.len(),
            i <= bv.len(),
            forall|j: int| 0 <= j < i ==> bv[j].model != model@,
        decreases buffer@.len() - i,
    {
        if str_eq(buffer[i].model.as_str(), model) {
            proof {
                assert(bv[i as int].model == model@);
                lemma_buffer_map_first(bv, model@, i as int);
            }
            return entries_get(&buffer[i].entries, command);
        }
        i = i + 1;
    }
    proof {
        lemma_buffer_map_absent(bv, model@);
    }
    None
}

/// Inserts or overwrites the cached response of `model` for `command`,
/// creating the model's cache if it is absent.
#[verifier::loop_isolation(false)]
pub fn buffer_put(buffer: &mut Vec<ModelCache>, model: &str, command: &str, text: &str)
    ensures
        buffer_map(final(buffer).deep_view()) =~= buffer_map(old(buffer).deep_view()).insert(
            model@,
            inner_of(old(buffer).deep_view(), model@).insert(command@, text@),
        ),
{
    let ghost orig = old(buffer).deep_view();
    let ghost orig_s = old(buffer)@;
    let mut i: usize = 0;
    while i < buffer.len()
        invariant
            orig == buffer.deep_view(),
            orig_s == buffer@,
            orig.len() == buffer@.len(),
            i <= orig.len(),
            forall|j: int| 0 <= j < i ==> orig[j].model != model@,
        decreases buffer@.len() - i,
    {
        if str_eq(buffer[i].model.as_str(), model) {
            proof {
                assert(orig[i as int].model == model@);
                lemma_buffer_map_first(orig, model@, i as int);
            }
            let mut mc = buffer.remove(i);
            entries_put(&mut mc.entries, command, text);
            let ghost new_entries = mc.entries.deep_view();
            let ghost mc_v = mc@;
            buffer.insert(i, mc);
            proof {
                let ghost bs2 = orig.update(i as int, mc_v);
                orig_s.remove_ensures(i as int);
                orig_s.remove(i as int).insert_ensures(i as int, mc);
                assert(buffer@ == orig_s.remove(i as int).insert(i as int, mc));
                assert forall|j: int| 0 <= j < buffer.deep_view().len() implies buffer.deep_view()[j]
                    == bs2[j] by {
                    if j < i {
                        assert(buffer@[j] == orig_s[j]);
                        assert(orig[j] == orig_s[j].deep_view());
                    } else if j == i {
                        assert(buffer@[j] == mc);
                    } else {
                        assert(orig_s.remove(i as int)[j - 1] == orig_s[j]);
                        assert(buffer@[j] == orig_s[j]);
                        assert(orig[j] == orig_s[j].deep_view());
                    }
                }
                assert(buffer.deep_view() =~= bs2);
                assert(mc_v.model == model@);
                assert(mc_v.entries == new_entries);
                lemma_buffer_map_update(orig, bs2, i as int);
                assert(inner_map(new_entries) =~= inner_of(orig, model@).insert(command@, text@));
                assert(buffer_map(buffer.deep_view()) =~= buffer_map(orig).insert(
                    model@,
                    inner_of(orig, model@).insert(command@, text@),
                ));
            }
            return ;
        }
        i = i + 1;
    }
    proof {
        lemma_buffer_map_absent(orig, model@);
    }
    let mut es: Vec<CacheEntry> = Vec::new();
    es.push(CacheEntry { command: String::from_str(command), text: String::from_str(text) });
    let mc = ModelCache { model: String::from_str(model), entries: es };
    let ghost mc_v = mc@;
    buffer.push(mc);
    proof {
        assert(buffer@ == orig_s.push(mc));
        assert forall|j: int| 0 <= j < buffer.deep_view().len() implies buffer.deep_view()[j]
            == orig.push(mc_v)[j] by {
            if j < orig.len() {
                assert(buffer@[j] == orig_s[j]);
                assert(orig[j] == orig_s[j].deep_view());
            } else {
                assert(buffer@[j] == mc);
            }
        }
        assert(buffer.deep_view() =~= orig.push(mc_v));
        lemma_buffer_map_snoc_new(orig, mc_v);
        assert(mc_v.entries.len() == 1);
        assert(mc_v.entries[0] == (EntryV { command: command@, text: text@ }));
        assert(mc_v.entries.drop_first() =~= Seq::<EntryV>::empty());
        assert(inner_map(Seq::<EntryV>::empty()) == Map::<Seq<char>, Seq<char>>::empty());
        assert(inner_map(mc_v.entries) =~= Map::<Seq<char>, Seq<char>>::empty().insert(
            command@,
            text@,
        ));
        assert(inner_of(orig, model@) == Map::<Seq<char>, Seq<char>>::empty());
        assert(buffer_map(buffer.deep_view()) =~= buffer_map(orig).insert(
            model@,
            inner_of(orig, model@).insert(command@, text@),
        ));
    }
}

/// Removes `command` from the cache of every model.
pub fn buffer_remove_command(buffer: &mut Vec<ModelCache>, command: &str)
    ensures
        forall|m: Seq<char>|
            buffer_map(final(buffer).deep_view()).contains_key(m) <==> buffer_map(
                old(buffer).deep_view(),
            ).contains_key(m),
        forall|m: Seq<char>|
            #[trigger] buffer_map(old(buffer).deep_view()).contains_key(m) ==> buffer_map(
                final(buffer).deep_view(),
            )[m] == buffer_map(old(buffer).deep_view())[m].remove(command@),
{
    let ghost orig = old(buffer).deep_view();
    let mut i: usize = 0;
    while i < buffer.len()
        invariant
            orig.len() == buffer@.len(),
            i <= orig.len(),
            forall|j: int| i <= j < orig.len() ==> buffer.deep_view()[j] == orig[j],
            forall|j: int| 0 <= j < i ==> buffer.deep_view()[j].model == orig[j].model,
            forall|j: int|
                0 <= j < i ==> inner_map(buffer.deep_view()[j].entries) == inner_map(
                    orig[j].entries,
                ).remove(command@),
        decreases buffer@.len() - i,
    {
        let ghost pre = buffer.deep_view();
        let ghost pre_s = buffer@;
        let mut mc = buffer.remove(i);
        entries_remove(&mut mc.entries, command);
        let ghost mc_v = mc@;
        buffer.insert(i, mc);
        proof {
            pre_s.remove_ensures(i as int);
            pre_s.remove(i as int).insert_ensures(i as int, mc);
            assert(buffer@ == pre_s.remove(i as int).insert(i as int, mc));
            assert forall|j: int| 0 <= j < buffer.deep_view().len() implies buffer.deep_view()[j]
                == pre.update(i as int, mc_v)[j] by {
                if j < i {
                    assert(buffer@[j] == pre_s[j]);
                    assert(pre[j] == pre_s[j].deep_view());
                } else if j == i {
                    assert(buffer@[j] == mc);
                } else {
                    assert(pre_s.remove(i as int)[j - 1] == pre_s[j]);
                    assert(buffer@[j] == pre_s[j]);
                    assert(pre[j] == pre_s[j].deep_view());
                }
            }
            assert(buffer.deep_view() =~= pre.update(i as int, mc_v));
            assert(mc_v.model == orig[i as int].model);
            assert(inner_map(mc_v.entries) =~= inner_map(orig[i as int].entries).remove(command@));
        }
        i = i + 1;
    }
    proof {
        let fin = buffer.deep_view();
        assert(fin.len() == orig.len());
        lemma_buffer_map_remove_each(orig, fin, command@);
    }
}

} // verus!

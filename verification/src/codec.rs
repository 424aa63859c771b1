use vstd::prelude::*;
use vstd::bytes::{
    lemma_auto_spec_u64_to_from_le_bytes, spec_u64_from_le_bytes, spec_u64_to_le_bytes,
    u64_from_le_bytes, u64_to_le_bytes,
};
use vstd::slice::slice_subrange;
use vstd::string::{StringSliceAdditionalSpecFns, StringExecFns};
use vstd::utf8::{
    decode_utf8, encode_utf8, encode_utf8_decode_utf8, encode_utf8_valid_utf8, valid_utf8,
};
use crate::cache::{CacheEntry, EntryV, ModelCache, ModelV};
use crate::config::{ConfigV, LlmConfig};
use crate::engine::Engine;
use crate::errors::StoreError;

verus! {

// The configuration record is persisted in a deterministic byte format:
// one engine tag byte; the model as a length-prefixed UTF-8 string; each
// optional credential as a presence byte followed, when present, by a
// string; then the cache as a count of models, each model being a string,
// a count of entries, and the entries as pairs of strings.  Counts and
// byte lengths are 8-byte little-endian integers.

/// Little-endian bytes of a length or count.
pub open spec fn enc_u64(n: u64) -> Seq<u8> {
    spec_u64_to_le_bytes(n)
}

/// A byte chunk, prefixed with its length.
pub open spec fn enc_chunk(bs: Seq<u8>) -> Seq<u8> {
    enc_u64(bs.len() as u64) + bs
}

/// A string: the length-prefixed bytes of its UTF-8 encoding.
pub open spec fn enc_str(s: Seq<char>) -> Seq<u8> {
    enc_chunk(encode_utf8(s))
}

/// An optional string: a presence byte, then the string if present.
pub open spec fn enc_opt_str(o: Option<Seq<char>>) -> Seq<u8> {
    match o {
        None => seq![0u8],
        Some(s) => seq![1u8] + enc_str(s),
    }
}

/// The tag byte of an engine.
pub open spec fn engine_tag(e: Engine) -> u8 {
    match e {
        Engine::Openai => 0,
        Engine::Ollama => 1,
        Engine::Google => 2,
    }
}

/// One cache entry: its command, then its text.
pub open spec fn enc_entry(e: EntryV) -> Seq<u8> {
    enc_str(e.command) + enc_str(e.text)
}

/// The entries of one model, in order.
pub open spec fn enc_entries(es: Seq<EntryV>) -> Seq<u8>
    decreases es.len(),
{
    if es.len() == 0 {
        Seq::empty()
    } else {
        enc_entry(es[0]) + enc_entries(es.drop_first())
    }
}

/// One model's cache: its name, its entry count, then its entries.
pub open spec fn enc_model(m: ModelV) -> Seq<u8> {
    enc_str(m.model) + enc_u64(m.entries.len() as u64) + enc_entries(m.entries)
}

/// All model caches, in order.
pub open spec fn enc_models(bs: Seq<ModelV>) -> Seq<u8>
    decreases bs.len(),
{
    if bs.len() == 0 {
        Seq::empty()
    } else {
        enc_model(bs[0]) + enc_models(bs.drop_first())
    }
}

/// The serialized form of a configuration record.
pub open spec fn spec_serialize(v: ConfigV) -> Seq<u8> {
    seq![engine_tag(v.engine)] + enc_str(v.model) + enc_opt_str(v.openai_key) + enc_opt_str(
        v.gemini_key,
    ) + enc_u64(v.buffer.len() as u64) + enc_models(v.buffer)
}

/// A string whose UTF-8 length fits the length prefix.  Every string held
/// in memory satisfies this.
pub open spec fn wf_str(s: Seq<char>) -> bool {
    encode_utf8(s).len() <= u64::MAX
}

pub open spec fn wf_entry(e: EntryV) -> bool {
    wf_str(e.command) && wf_str(e.text)
}

pub open spec fn wf_model(m: ModelV) -> bool {
    &&& wf_str(m.model)
    &&& m.entries.len() <= u64::MAX
    &&& forall|i: int| 0 <= i < m.entries.len() ==> wf_entry(#[trigger] m.entries[i])
}

/// A record view whose strings and counts fit the format's prefixes.  Every
/// record held in memory satisfies this.
pub open spec fn wf_view(v: ConfigV) -> bool {
    &&& wf_str(v.model)
    &&& (v.openai_key matches Some(s) ==> wf_str(s))
    &&& (v.gemini_key matches Some(s) ==> wf_str(s))
    &&& v.buffer.len() <= u64::MAX
    &&& forall|i: int| 0 <= i < v.buffer.len() ==> wf_model(#[trigger] v.buffer[i])
}

// The parser, at the specification level.  Each function consumes a prefix
// of `b` starting at `pos` and yields the parsed value with the position
// after it, or nothing if the bytes do not fit the format.

pub open spec fn p_u8(b: Seq<u8>, pos: int) -> Option<(u8, int)> {
    if 0 <= pos && pos + 1 <= b.len() {
        Some((b[pos], pos + 1))
    } else {
        None
    }
}

pub open spec fn p_u64(b: Seq<u8>, pos: int) -> Option<(u64, int)> {
    if 0 <= pos && pos + 8 <= b.len() {
        Some((spec_u64_from_le_bytes(b.subrange(pos, pos + 8)), pos + 8))
    } else {
        None
    }
}

pub open spec fn p_chunk(b: Seq<u8>, pos: int) -> Option<(Seq<u8>, int)> {
    match p_u64(b, pos) {
        Some((n, p)) => if p + n <= b.len() {
            Some((b.subrange(p, p + n), p + n))
        } else {
            None
        },
        None => None,
    }
}

pub open spec fn p_str(b: Seq<u8>, pos: int) -> Option<(Seq<char>, int)> {
    match p_chunk(b, pos) {
        Some((bs, p)) => if valid_utf8(bs) {
            Some((decode_utf8(bs), p))
        } else {
            None
        },
        None => None,
    }
}

pub open spec fn p_opt_str(b: Seq<u8>, pos: int) -> Option<(Option<Seq<char>>, int)> {
    match p_u8(b, pos) {
        Some((t, p)) => if t == 0 {
            Some((None, p))
        } else if t == 1 {
            match p_str(b, p) {
                Some((s, p2)) => Some((Some(s), p2)),
                None => None,
            }
        } else {
            None
        },
        None => None,
    }
}

pub open spec fn p_engine(b: Seq<u8>, pos: int) -> Option<(Engine, int)> {
    match p_u8(b, pos) {
        Some((t, p)) => if t == 0 {
            Some((Engine::Openai, p))
        } else if t == 1 {
            Some((Engine::Ollama, p))
        } else if t == 2 {
            Some((Engine::Google, p))
        } else {
            None
        },
        None => None,
    }
}

pub open spec fn p_entry(b: Seq<u8>, pos: int) -> Option<(EntryV, int)> {
    match p_str(b, pos) {
        Some((c, p)) => match p_str(b, p) {
            Some((t, p2)) => Some((EntryV { command: c, text: t }, p2)),
            None => None,
        },
        None => None,
    }
}

pub open spec fn p_entries(b: Seq<u8>, pos: int, n: u64) -> Option<(Seq<EntryV>, int)>
    decreases n,
{
    if n == 0 {
        Some((Seq::empty(), pos))
    } else {
        match p_entry(b, pos) {
            Some((e, p)) => match p_entries(b, p, (n - 1) as u64) {
                Some((es, p2)) => Some((seq![e] + es, p2)),
                None => None,
            },
            None => None,
        }
    }
}

pub open spec fn p_model(b: Seq<u8>, pos: int) -> Option<(ModelV, int)> {
    match p_str(b, pos) {
        Some((m, p)) => match p_u64(b, p) {
            Some((n, p2)) => match p_entries(b, p2, n) {
                Some((es, p3)) => Some((ModelV { model: m, entries: es }, p3)),
                None => None,
            },
            None => None,
        },
        None => None,
    }
}

pub open spec fn p_models(b: Seq<u8>, pos: int, n: u64) -> Option<(Seq<ModelV>, int)>
    decreases n,
{
    if n == 0 {
        Some((Seq::empty(), pos))
    } else {
        match p_model(b, pos) {
            Some((m, p)) => match p_models(b, p, (n - 1) as u64) {
                Some((ms, p2)) => Some((seq![m] + ms, p2)),
                None => None,
            },
            None => None,
        }
    }
}

/// The record a byte string deserializes to, if it is well-formed and is
/// consumed completely.
pub open spec fn spec_parse(b: Seq<u8>) -> Option<ConfigV> {
    match p_engine(b, 0) {
        Some((e, p1)) => match p_str(b, p1) {
            Some((model, p2)) => match p_opt_str(b, p2) {
                Some((ok, p3)) => match p_opt_str(b, p3) {
                    Some((gk, p4)) => match p_u64(b, p4) {
                        Some((n, p5)) => match p_models(b, p5, n) {
                            Some((bs, p6)) => if p6 == b.len() {
                                Some(
                                    ConfigV {
                                        engine: e,
                                        model,
                                        openai_key: ok,
                                        gemini_key: gk,
                                        buffer: bs,
                                    },
                                )
                            } else {
                                None
                            },
                            None => None,
                        },
                        None => None,
                    },
                    None => None,
                },
                None => None,
            },
            None => None,
        },
        None => None,
    }
}

// Round-trip lemmas: each parser recovers exactly what the matching
// encoder produced, wherever the encoding stands inside a larger string.

proof fn lemma_enc_u64_len(x: u64)
    ensures
        enc_u64(x).len() == 8,
{
    lemma_auto_spec_u64_to_from_le_bytes();
}

proof fn lemma_p_u64_enc(b: Seq<u8>, pos: int, x: u64)
    requires
        0 <= pos,
        pos + 8 <= b.len(),
        b.subrange(pos, pos + 8) == enc_u64(x),
    ensures
        p_u64(b, pos) == Some((x, pos + 8)),
{
    lemma_auto_spec_u64_to_from_le_bytes();
}

proof fn lemma_p_chunk_enc(b: Seq<u8>, pos: int, bs: Seq<u8>)
    requires
        0 <= pos,
        bs.len() <= u64::MAX,
        pos + 8 + bs.len() <= b.len(),
        b.subrange(pos, pos + 8 + bs.len()) == enc_chunk(bs),
    ensures
        p_chunk(b, pos) == Some((bs, pos + 8 + bs.len())),
{
    lemma_enc_u64_len(bs.len() as u64);
    let seg = b.subrange(pos, pos + 8 + bs.len());
    assert(b.subrange(pos, pos + 8) =~= enc_u64(bs.len() as u64)) by {
        assert forall|i: int| 0 <= i < 8 implies #[trigger] b.subrange(pos, pos + 8)[i] == enc_u64(
            bs.len() as u64,
        )[i] by {
            assert(b.subrange(pos, pos + 8)[i] == seg[i]);
            assert(seg[i] == (enc_u64(bs.len() as u64) + bs)[i]);
        }
    }
    lemma_p_u64_enc(b, pos, bs.len() as u64);
    assert(b.subrange(pos + 8, pos + 8 + bs.len()) =~= bs) by {
        assert forall|i: int| 0 <= i < bs.len() implies b.subrange(pos + 8, pos + 8 + bs.len())[i]
            == bs[i] by {
            assert(b.subrange(pos + 8, pos + 8 + bs.len())[i] == seg[i + 8]);
            assert(seg[i + 8] == (enc_u64(bs.len() as u64) + bs)[i + 8]);
        }
    }
}

proof fn lemma_p_str_enc(b: Seq<u8>, pos: int, s: Seq<char>)
    requires
        wf_str(s),
        0 <= pos,
        pos + enc_str(s).len() <= b.len(),
        b.subrange(pos, pos + enc_str(s).len()) == enc_str(s),
    ensures
        p_str(b, pos) == Some((s, pos + enc_str(s).len())),
        enc_str(s).len() == 8 + encode_utf8(s).len(),
{
    broadcast use encode_utf8_valid_utf8;
    broadcast use encode_utf8_decode_utf8;

    lemma_enc_u64_len(encode_utf8(s).len() as u64);
    lemma_p_chunk_enc(b, pos, encode_utf8(s));
}

proof fn lemma_p_entry_enc(b: Seq<u8>, pos: int, e: EntryV)
    requires
        wf_entry(e),
        0 <= pos,
        pos + enc_entry(e).len() <= b.len(),
        b.subrange(pos, pos + enc_entry(e).len()) == enc_entry(e),
    ensures
        p_entry(b, pos) == Some((e, pos + enc_entry(e).len())),
{
    let c = enc_str(e.command);
    let t = enc_str(e.text);
    let seg = b.subrange(pos, pos + enc_entry(e).len());
    assert(b.subrange(pos, pos + c.len()) =~= c) by {
        assert forall|i: int| 0 <= i < c.len() implies b.subrange(pos, pos + c.len())[i]
            == c[i] by {
            assert(b.subrange(pos, pos + c.len())[i] == seg[i]);
            assert(seg[i] == (c + t)[i]);
        }
    }
    lemma_p_str_enc(b, pos, e.command);
    assert(b.subrange(pos + c.len(), pos + c.len() + t.len()) =~= t) by {
        assert forall|i: int| 0 <= i < t.len() implies b.subrange(
            pos + c.len(),
            pos + c.len() + t.len(),
        )[i] == t[i] by {
            assert(b.subrange(pos + c.len(), pos + c.len() + t.len())[i] == seg[i + c.len()]);
            assert(seg[i + c.len()] == (c + t)[i + c.len()]);
        }
    }
    lemma_p_str_enc(b, pos + c.len(), e.text);
}

proof fn lemma_p_entries_enc(b: Seq<u8>, pos: int, es: Seq<EntryV>)
    requires
        0 <= pos,
        pos + enc_entries(es).len() <= b.len(),
        b.subrange(pos, pos + enc_entries(es).len()) == enc_entries(es),
        es.len() <= u64::MAX,
        forall|i: int| 0 <= i < es.len() ==> wf_entry(#[trigger] es[i]),
    ensures
        p_entries(b, pos, es.len() as u64) == Some((es, pos + enc_entries(es).len())),
    decreases es.len(),
{
    if es.len() == 0 {
        assert(p_entries(b, pos, 0) == Some((Seq::<EntryV>::empty(), pos)));
        assert(Seq::<EntryV>::empty() =~= es);
    } else {
        let e0 = enc_entry(es[0]);
        let rest = enc_entries(es.drop_first());
        let seg = b.subrange(pos, pos + enc_entries(es).len());
        assert(b.subrange(pos, pos + e0.len()) =~= e0) by {
            assert forall|i: int| 0 <= i < e0.len() implies b.subrange(pos, pos + e0.len())[i]
                == e0[i] by {
                assert(b.subrange(pos, pos + e0.len())[i] == seg[i]);
                assert(seg[i] == (e0 + rest)[i]);
            }
        }
        lemma_p_entry_enc(b, pos, es[0]);
        assert(b.subrange(pos + e0.len(), pos + e0.len() + rest.len()) =~= rest) by {
            assert forall|i: int| 0 <= i < rest.len() implies b.subrange(
                pos + e0.len(),
                pos + e0.len() + rest.len(),
            )[i] == rest[i] by {
                assert(b.subrange(pos + e0.len(), pos + e0.len() + rest.len())[i] == seg[i
                    + e0.len()]);
                assert(seg[i + e0.len()] == (e0 + rest)[i + e0.len()]);
            }
        }
        assert forall|i: int| 0 <= i < es.drop_first().len() implies wf_entry(
            #[trigger] es.drop_first()[i],
        ) by {
            assert(es.drop_first()[i] == es[i + 1]);
        }
        lemma_p_entries_enc(b, pos + e0.len(), es.drop_first());
        assert((es.len() - 1) as u64 == es.drop_first().len() as u64);
        assert(seq![es[0]] + es.drop_first() =~= es);
    }
}

proof fn lemma_p_model_enc(b: Seq<u8>, pos: int, m: ModelV)
    requires
        wf_model(m),
        0 <= pos,
        pos + enc_model(m).len() <= b.len(),
        b.subrange(pos, pos + enc_model(m).len()) == enc_model(m),
    ensures
        p_model(b, pos) == Some((m, pos + enc_model(m).len())),
{
    let n = enc_str(m.model);
    let c = enc_u64(m.entries.len() as u64);
    let e = enc_entries(m.entries);
    lemma_enc_u64_len(m.entries.len() as u64);
    let seg = b.subrange(pos, pos + enc_model(m).len());
    assert(seg == n + c + e);
    assert(b.subrange(pos, pos + n.len()) =~= n) by {
        assert forall|i: int| 0 <= i < n.len() implies b.subrange(pos, pos + n.len())[i]
            == n[i] by {
            assert(b.subrange(pos, pos + n.len())[i] == seg[i]);
            assert(seg[i] == (n + c + e)[i]);
            assert((n + c + e)[i] == (n + c)[i]);
        }
    }
    lemma_p_str_enc(b, pos, m.model);
    assert(b.subrange(pos + n.len(), pos + n.len() + 8) =~= c) by {
        assert forall|i: int| 0 <= i < 8 implies b.subrange(pos + n.len(), pos + n.len() + 8)[i]
            == c[i] by {
            assert(b.subrange(pos + n.len(), pos + n.len() + 8)[i] == seg[i + n.len()]);
            assert(seg[i + n.len()] == (n + c + e)[i + n.len()]);
            assert((n + c + e)[i + n.len()] == (n + c)[i + n.len()]);
        }
    }
    lemma_p_u64_enc(b, pos + n.len(), m.entries.len() as u64);
    assert(b.subrange(pos + n.len() + 8, pos + n.len() + 8 + e.len()) =~= e) by {
        assert forall|i: int| 0 <= i < e.len() implies b.subrange(
            pos + n.len() + 8,
            pos + n.len() + 8 + e.len(),
        )[i] == e[i] by {
            assert(b.subrange(pos + n.len() + 8, pos + n.len() + 8 + e.len())[i] == seg[i + n.len()
                + 8]);
            assert(seg[i + n.len() + 8] == (n + c + e)[i + n.len() + 8]);
        }
    }
    lemma_p_entries_enc(b, pos + n.len() + 8, m.entries);
}

proof fn lemma_p_models_enc(b: Seq<u8>, pos: int, ms: Seq<ModelV>)
    requires
        0 <= pos,
        pos + enc_models(ms).len() <= b.len(),
        b.subrange(pos, pos + enc_models(ms).len()) == enc_models(ms),
        ms.len() <= u64::MAX,
        forall|i: int| 0 <= i < ms.len() ==> wf_model(#[trigger] ms[i]),
    ensures
        p_models(b, pos, ms.len() as u64) == Some((ms, pos + enc_models(ms).len())),
    decreases ms.len(),
{
    if ms.len() == 0 {
        assert(p_models(b, pos, 0) == Some((Seq::<ModelV>::empty(), pos)));
        assert(Seq::<ModelV>::empty() =~= ms);
    } else {
        let m0 = enc_model(ms[0]);
        let rest = enc_models(ms.drop_first());
        let seg = b.subrange(pos, pos + enc_models(ms).len());
        assert(b.subrange(pos, pos + m0.len()) =~= m0) by {
            assert forall|i: int| 0 <= i < m0.len() implies b.subrange(pos, pos + m0.len())[i]
                == m0[i] by {
                assert(b.subrange(pos, pos + m0.len())[i] == seg[i]);
                assert(seg[i] == (m0 + rest)[i]);
            }
        }
        lemma_p_model_enc(b, pos, ms[0]);
        assert(b.subrange(pos + m0.len(), pos + m0.len() + rest.len()) =~= rest) by {
            assert forall|i: int| 0 <= i < rest.len() implies b.subrange(
                pos + m0.len(),
                pos + m0.len() + rest.len(),
            )[i] == rest[i] by {
                assert(b.subrange(pos + m0.len(), pos + m0.len() + rest.len())[i] == seg[i
                    + m0.len()]);
                assert(seg[i + m0.len()] == (m0 + rest)[i + m0.len()]);
            }
        }
        assert forall|i: int| 0 <= i < ms.drop_first().len() implies wf_model(
            #[trigger] ms.drop_first()[i],
        ) by {
            assert(ms.drop_first()[i] == ms[i + 1]);
        }
        lemma_p_models_enc(b, pos + m0.len(), ms.drop_first());
        assert(seq![ms[0]] + ms.drop_first() =~= ms);
    }
}

/// Serialization round-trip: parsing the serialized form of any
/// well-formed record view yields exactly that view.
pub proof fn lemma_parse_serialize(v: ConfigV)
    requires
        wf_view(v),
    ensures
        spec_parse(spec_serialize(v)) == Some(v),
{
    let b = spec_serialize(v);
    let s_tag = seq![engine_tag(v.engine)];
    let s_model = enc_str(v.model);
    let s_ok = enc_opt_str(v.openai_key);
    let s_gk = enc_opt_str(v.gemini_key);
    let s_cnt = enc_u64(v.buffer.len() as u64);
    let s_bufs = enc_models(v.buffer);
    lemma_enc_u64_len(v.buffer.len() as u64);
    let p1 = 1int;
    let p2 = p1 + s_model.len();
    let p3 = p2 + s_ok.len();
    let p4 = p3 + s_gk.len();
    let p5 = p4 + 8;
    let p6 = p5 + s_bufs.len();
    assert(b.len() == p6);
    assert forall|i: int| 0 <= i < b.len() implies b[i] == (s_tag + s_model + s_ok + s_gk + s_cnt
        + s_bufs)[i] by {}

    // engine tag
    assert(b[0] == engine_tag(v.engine));
    assert(p_engine(b, 0) == Some((v.engine, p1)));

    // model
    assert(b.subrange(p1, p2) =~= s_model) by {
        assert forall|i: int| 0 <= i < s_model.len() implies b.subrange(p1, p2)[i]
            == s_model[i] by {
            assert(b[p1 + i] == (s_tag + s_model + s_ok + s_gk + s_cnt + s_bufs)[p1 + i]);
        }
    }
    lemma_p_str_enc(b, p1, v.model);

    // openai key
    assert(b.subrange(p2, p3) =~= s_ok) by {
        assert forall|i: int| 0 <= i < s_ok.len() implies b.subrange(p2, p3)[i] == s_ok[i] by {
            assert(b[p2 + i] == (s_tag + s_model + s_ok + s_gk + s_cnt + s_bufs)[p2 + i]);
        }
    }
    lemma_p_opt_enc(b, p2, v.openai_key);

    // gemini key
    assert(b.subrange(p3, p4) =~= s_gk) by {
        assert forall|i: int| 0 <= i < s_gk.len() implies b.subrange(p3, p4)[i] == s_gk[i] by {
            assert(b[p3 + i] == (s_tag + s_model + s_ok + s_gk + s_cnt + s_bufs)[p3 + i]);
        }
    }
    lemma_p_opt_enc(b, p3, v.gemini_key);

    // model count
    assert(b.subrange(p4, p5) =~= s_cnt) by {
        assert forall|i: int| 0 <= i < 8 implies b.subrange(p4, p5)[i] == s_cnt[i] by {
            assert(b[p4 + i] == (s_tag + s_model + s_ok + s_gk + s_cnt + s_bufs)[p4 + i]);
        }
    }
    lemma_p_u64_enc(b, p4, v.buffer.len() as u64);

    // the caches
    assert(b.subrange(p5, p6) =~= s_bufs) by {
        assert forall|i: int| 0 <= i < s_bufs.len() implies b.subrange(p5, p6)[i]
            == s_bufs[i] by {
            assert(b[p5 + i] == (s_tag + s_model + s_ok + s_gk + s_cnt + s_bufs)[p5 + i]);
        }
    }
    lemma_p_models_enc(b, p5, v.buffer);

    assert(spec_parse(b) == Some(
        ConfigV {
            engine: v.engine,
            model: v.model,
            openai_key: v.openai_key,
            gemini_key: v.gemini_key,
            buffer: v.buffer,
        },
    ));
    assert(ConfigV {
        engine: v.engine,
        model: v.model,
        openai_key: v.openai_key,
        gemini_key: v.gemini_key,
        buffer: v.buffer,
    } =~= v);
}

proof fn lemma_p_opt_enc(b: Seq<u8>, pos: int, o: Option<Seq<char>>)
    requires
        0 <= pos,
        o matches Some(s) ==> wf_str(s),
        pos + enc_opt_str(o).len() <= b.len(),
        b.subrange(pos, pos + enc_opt_str(o).len()) == enc_opt_str(o),
    ensures
        p_opt_str(b, pos) == Some((o, pos + enc_opt_str(o).len())),
{
    match o {
        None => {
            assert(b[pos] == enc_opt_str(o)[0]);
            assert(b[pos] == 0u8);
        },
        Some(s) => {
            let e = enc_str(s);
            let seg = b.subrange(pos, pos + enc_opt_str(o).len());
            assert(seg == seq![1u8] + e);
            assert(b[pos] == seg[0]);
            assert(b[pos] == 1u8);
            assert(b.subrange(pos + 1, pos + 1 + e.len()) =~= e) by {
                assert forall|i: int| 0 <= i < e.len() implies b.subrange(
                    pos + 1,
                    pos + 1 + e.len(),
                )[i] == e[i] by {
                    assert(b.subrange(pos + 1, pos + 1 + e.len())[i] == seg[i + 1]);
                    assert(seg[i + 1] == (seq![1u8] + e)[i + 1]);
                }
            }
            lemma_p_str_enc(b, pos + 1, s);
        },
    }
}

// Canonical-form lemmas: each parser consumes exactly the encoding of
// what it returns, so parsing inverts serialization in both directions.

proof fn lemma_p_u64_canon(b: Seq<u8>, pos: int, x: u64, p: int)
    requires
        p_u64(b, pos) == Some((x, p)),
    ensures
        p == pos + 8,
        enc_u64(x) == b.subrange(pos, p),
{
    lemma_auto_spec_u64_to_from_le_bytes();
}

proof fn lemma_p_chunk_canon(b: Seq<u8>, pos: int, bs: Seq<u8>, p: int)
    requires
        p_chunk(b, pos) == Some((bs, p)),
    ensures
        pos + 8 <= p <= b.len(),
        p == pos + 8 + bs.len(),
        bs.len() <= u64::MAX,
        enc_chunk(bs) == b.subrange(pos, p),
{
    let (n, p1) = p_u64(b, pos).unwrap();
    lemma_p_u64_canon(b, pos, n, p1);
    assert(bs == b.subrange(p1, p1 + n));
    assert(bs.len() == n);
    assert(enc_chunk(bs) =~= b.subrange(pos, p)) by {
        assert forall|i: int| 0 <= i < enc_chunk(bs).len() implies enc_chunk(bs)[i] == b.subrange(
            pos,
            p,
        )[i] by {
            if i < 8 {
                assert(enc_chunk(bs)[i] == enc_u64(n)[i]);
                assert(enc_u64(n)[i] == b.subrange(pos, pos + 8)[i]);
            } else {
                assert(enc_chunk(bs)[i] == bs[i - 8]);
            }
        }
    }
}

proof fn lemma_p_str_canon(b: Seq<u8>, pos: int, s: Seq<char>, p: int)
    requires
        p_str(b, pos) == Some((s, p)),
    ensures
        pos + 8 <= p <= b.len(),
        wf_str(s),
        enc_str(s) == b.subrange(pos, p),
        p == pos + enc_str(s).len(),
{
    broadcast use vstd::utf8::decode_utf8_encode_utf8;

    let (bs, p1) = p_chunk(b, pos).unwrap();
    lemma_p_chunk_canon(b, pos, bs, p1);
    assert(valid_utf8(bs));
    assert(s == decode_utf8(bs));
    assert(encode_utf8(s) == bs);
}

proof fn lemma_p_opt_canon(b: Seq<u8>, pos: int, o: Option<Seq<char>>, p: int)
    requires
        p_opt_str(b, pos) == Some((o, p)),
    ensures
        pos + 1 <= p <= b.len(),
        o matches Some(s) ==> wf_str(s),
        enc_opt_str(o) == b.subrange(pos, p),
        p == pos + enc_opt_str(o).len(),
{
    let (t, p1) = p_u8(b, pos).unwrap();
    assert(t == b[pos]);
    match o {
        None => {
            assert(t == 0);
            assert(enc_opt_str(o) =~= b.subrange(pos, p));
        },
        Some(s) => {
            assert(t == 1);
            let (s2, p2) = p_str(b, p1).unwrap();
            assert(s2 == s && p2 == p);
            lemma_p_str_canon(b, p1, s, p);
            assert(enc_opt_str(o) =~= b.subrange(pos, p)) by {
                assert forall|i: int| 0 <= i < enc_opt_str(o).len() implies enc_opt_str(o)[i]
                    == b.subrange(pos, p)[i] by {
                    if i == 0 {
                    } else {
                        assert(enc_opt_str(o)[i] == enc_str(s)[i - 1]);
                        assert(enc_str(s)[i - 1] == b.subrange(p1, p)[i - 1]);
                    }
                }
            }
        },
    }
}

proof fn lemma_p_engine_canon(b: Seq<u8>, pos: int, e: Engine, p: int)
    requires
        p_engine(b, pos) == Some((e, p)),
    ensures
        p == pos + 1,
        0 <= pos < b.len(),
        b[pos] == engine_tag(e),
{
}

proof fn lemma_p_entry_canon(b: Seq<u8>, pos: int, e: EntryV, p: int)
    requires
        p_entry(b, pos) == Some((e, p)),
    ensures
        pos + 16 <= p <= b.len(),
        wf_entry(e),
        enc_entry(e) == b.subrange(pos, p),
        p == pos + enc_entry(e).len(),
{
    let (c, p1) = p_str(b, pos).unwrap();
    let (t, p2) = p_str(b, p1).unwrap();
    lemma_p_str_canon(b, pos, c, p1);
    lemma_p_str_canon(b, p1, t, p2);
    assert(enc_entry(e) =~= b.subrange(pos, p)) by {
        assert forall|i: int| 0 <= i < enc_entry(e).len() implies enc_entry(e)[i] == b.subrange(
            pos,
            p,
        )[i] by {
            if i < enc_str(c).len() {
                assert(enc_entry(e)[i] == enc_str(c)[i]);
                assert(enc_str(c)[i] == b.subrange(pos, p1)[i]);
            } else {
                assert(enc_entry(e)[i] == enc_str(t)[i - enc_str(c).len()]);
                assert(enc_str(t)[i - enc_str(c).len()] == b.subrange(p1, p2)[i - enc_str(
                    c,
                ).len()]);
            }
        }
    }
}

proof fn lemma_p_entries_canon(b: Seq<u8>, pos: int, n: u64, es: Seq<EntryV>, p: int)
    requires
        p_entries(b, pos, n) == Some((es, p)),
        0 <= pos <= b.len(),
    ensures
        pos <= p <= b.len(),
        es.len() == n,
        forall|i: int| 0 <= i < es.len() ==> wf_entry(#[trigger] es[i]),
        enc_entries(es) == b.subrange(pos, p),
        p == pos + enc_entries(es).len(),
    decreases n,
{
    if n == 0 {
        assert(es =~= Seq::<EntryV>::empty());
        assert(enc_entries(es) =~= b.subrange(pos, p));
    } else {
        let (e, p1) = p_entry(b, pos).unwrap();
        let (rest, p2) = p_entries(b, p1, (n - 1) as u64).unwrap();
        assert(es == seq![e] + rest && p2 == p);
        lemma_p_entry_canon(b, pos, e, p1);
        lemma_p_entries_canon(b, p1, (n - 1) as u64, rest, p2);
        assert(es[0] == e);
        assert(es.drop_first() =~= rest);
        assert forall|i: int| 0 <= i < es.len() implies wf_entry(#[trigger] es[i]) by {
            if i > 0 {
                assert(es[i] == rest[i - 1]);
            }
        }
        assert(enc_entries(es) == enc_entry(e) + enc_entries(rest));
        assert(enc_entries(es) =~= b.subrange(pos, p)) by {
            assert forall|i: int| 0 <= i < enc_entries(es).len() implies enc_entries(es)[i]
                == b.subrange(pos, p)[i] by {
                if i < enc_entry(e).len() {
                    assert(enc_entries(es)[i] == enc_entry(e)[i]);
                    assert(enc_entry(e)[i] == b.subrange(pos, p1)[i]);
                } else {
                    assert(enc_entries(es)[i] == enc_entries(rest)[i - enc_entry(e).len()]);
                    assert(enc_entries(rest)[i - enc_entry(e).len()] == b.subrange(p1, p2)[i
                        - enc_entry(e).len()]);
                }
            }
        }
    }
}

proof fn lemma_p_model_canon(b: Seq<u8>, pos: int, m: ModelV, p: int)
    requires
        p_model(b, pos) == Some((m, p)),
    ensures
        pos <= p <= b.len(),
        wf_model(m),
        enc_model(m) == b.subrange(pos, p),
        p == pos + enc_model(m).len(),
{
    let (name, p1) = p_str(b, pos).unwrap();
    let (n, p2) = p_u64(b, p1).unwrap();
    let (es, p3) = p_entries(b, p2, n).unwrap();
    lemma_p_str_canon(b, pos, name, p1);
    lemma_p_u64_canon(b, p1, n, p2);
    lemma_p_entries_canon(b, p2, n, es, p3);
    assert(m.entries.len() as u64 == n);
    assert(enc_model(m) =~= b.subrange(pos, p)) by {
        assert forall|i: int| 0 <= i < enc_model(m).len() implies enc_model(m)[i] == b.subrange(
            pos,
            p,
        )[i] by {
            if i < enc_str(name).len() {
                assert(enc_model(m)[i] == enc_str(name)[i]);
                assert(enc_str(name)[i] == b.subrange(pos, p1)[i]);
            } else if i < enc_str(name).len() + 8 {
                assert(enc_model(m)[i] == enc_u64(n)[i - enc_str(name).len()]);
                assert(enc_u64(n)[i - enc_str(name).len()] == b.subrange(p1, p2)[i - enc_str(
                    name,
                ).len()]);
            } else {
                assert(enc_model(m)[i] == enc_entries(es)[i - enc_str(name).len() - 8]);
                assert(enc_entries(es)[i - enc_str(name).len() - 8] == b.subrange(p2, p3)[i
                    - enc_str(name).len() - 8]);
            }
        }
    }
}

proof fn lemma_p_models_canon(b: Seq<u8>, pos: int, n: u64, ms: Seq<ModelV>, p: int)
    requires
        p_models(b, pos, n) == Some((ms, p)),
        0 <= pos <= b.len(),
    ensures
        pos <= p <= b.len(),
        ms.len() == n,
        forall|i: int| 0 <= i < ms.len() ==> wf_model(#[trigger] ms[i]),
        enc_models(ms) == b.subrange(pos, p),
        p == pos + enc_models(ms).len(),
    decreases n,
{
    if n == 0 {
        assert(ms =~= Seq::<ModelV>::empty());
        assert(enc_models(ms) =~= b.subrange(pos, p));
    } else {
        let (m, p1) = p_model(b, pos).unwrap();
        let (rest, p2) = p_models(b, p1, (n - 1) as u64).unwrap();
        assert(ms == seq![m] + rest && p2 == p);
        lemma_p_model_canon(b, pos, m, p1);
        lemma_p_models_canon(b, p1, (n - 1) as u64, rest, p2);
        assert(ms[0] == m);
        assert(ms.drop_first() =~= rest);
        assert forall|i: int| 0 <= i < ms.len() implies wf_model(#[trigger] ms[i]) by {
            if i > 0 {
                assert(ms[i] == rest[i - 1]);
            }
        }
        assert(enc_models(ms) == enc_model(m) + enc_models(rest));
        assert(enc_models(ms) =~= b.subrange(pos, p)) by {
            assert forall|i: int| 0 <= i < enc_models(ms).len() implies enc_models(ms)[i]
                == b.subrange(pos, p)[i] by {
                if i < enc_model(m).len() {
                    assert(enc_models(ms)[i] == enc_model(m)[i]);
                    assert(enc_model(m)[i] == b.subrange(pos, p1)[i]);
                } else {
                    assert(enc_models(ms)[i] == enc_models(rest)[i - enc_model(m).len()]);
                    assert(enc_models(rest)[i - enc_model(m).len()] == b.subrange(p1, p2)[i
                        - enc_model(m).len()]);
                }
            }
        }
    }
}

/// Serialization is canonical: a byte string that parses at all is the
/// serialization of the record it parses to, and that record is
/// well-formed.  Together with `lemma_parse_serialize`, parsing and
/// serialization are inverse bijections between records and their byte
/// strings.
pub proof fn lemma_serialize_parse(b: Seq<u8>, v: ConfigV)
    requires
        spec_parse(b) == Some(v),
    ensures
        wf_view(v),
        spec_serialize(v) == b,
{
    let (e, p1) = p_engine(b, 0).unwrap();
    let (model, p2) = p_str(b, p1).unwrap();
    let (ok, p3) = p_opt_str(b, p2).unwrap();
    let (gk, p4) = p_opt_str(b, p3).unwrap();
    let (n, p5) = p_u64(b, p4).unwrap();
    let (bs, p6) = p_models(b, p5, n).unwrap();
    assert(p6 == b.len());
    lemma_p_engine_canon(b, 0, e, p1);
    lemma_p_str_canon(b, p1, model, p2);
    lemma_p_opt_canon(b, p2, ok, p3);
    lemma_p_opt_canon(b, p3, gk, p4);
    lemma_p_u64_canon(b, p4, n, p5);
    lemma_p_models_canon(b, p5, n, bs, p6);
    assert(v.buffer.len() as u64 == n);
    assert(spec_serialize(v) =~= b) by {
        assert forall|i: int| 0 <= i < spec_serialize(v).len() implies spec_serialize(v)[i]
            == b[i] by {
            let s_tag = seq![engine_tag(v.engine)];
            let whole = s_tag + enc_str(v.model) + enc_opt_str(v.openai_key) + enc_opt_str(
                v.gemini_key,
            ) + enc_u64(n) + enc_models(v.buffer);
            assert(spec_serialize(v)[i] == whole[i]);
            if i < p1 {
                assert(whole[i] == engine_tag(e));
            } else if i < p2 {
                assert(whole[i] == enc_str(model)[i - p1]);
                assert(enc_str(model)[i - p1] == b.subrange(p1, p2)[i - p1]);
            } else if i < p3 {
                assert(whole[i] == enc_opt_str(ok)[i - p2]);
                assert(enc_opt_str(ok)[i - p2] == b.subrange(p2, p3)[i - p2]);
            } else if i < p4 {
                assert(whole[i] == enc_opt_str(gk)[i - p3]);
                assert(enc_opt_str(gk)[i - p3] == b.subrange(p3, p4)[i - p3]);
            } else if i < p5 {
                assert(whole[i] == enc_u64(n)[i - p4]);
                assert(enc_u64(n)[i - p4] == b.subrange(p4, p5)[i - p4]);
            } else {
                assert(whole[i] == enc_models(bs)[i - p5]);
                assert(enc_models(bs)[i - p5] == b.subrange(p5, p6)[i - p5]);
            }
        }
    }
}

#[verifier::external_type_specification]
#[verifier::external_body]
pub struct ExUtf8Error(core::str::Utf8Error);

/// Relies on str::from_utf8: it accepts exactly the valid UTF-8 byte
/// strings, and the returned text reads back as the given bytes.
pub assume_specification[ core::str::from_utf8 ](v: &[u8]) -> (r: Result<
    &str,
    core::str::Utf8Error,
>)
    ensures
        r matches Ok(s) ==> s.spec_bytes() == v@,
        valid_utf8(v@) ==> r is Ok,
;

proof fn lemma_enc_entries_snoc(es: Seq<EntryV>, e: EntryV)
    ensures
        enc_entries(es.push(e)) == enc_entries(es) + enc_entry(e),
    decreases es.len(),
{
    let p = es.push(e);
    if es.len() == 0 {
        assert(p[0] == e);
        assert(p.drop_first() =~= Seq::<EntryV>::empty());
        assert(enc_entries(Seq::<EntryV>::empty()) == Seq::<u8>::empty());
        assert(enc_entries(p) =~= enc_entries(es) + enc_entry(e));
    } else {
        assert(p[0] == es[0]);
        assert(p.drop_first() =~= es.drop_first().push(e));
        lemma_enc_entries_snoc(es.drop_first(), e);
        assert(enc_entries(p) == enc_entry(es[0]) + (enc_entries(es.drop_first()) + enc_entry(e)));
        assert(enc_entries(p) =~= enc_entries(es) + enc_entry(e));
    }
}

proof fn lemma_enc_models_snoc(ms: Seq<ModelV>, m: ModelV)
    ensures
        enc_models(ms.push(m)) == enc_models(ms) + enc_model(m),
    decreases ms.len(),
{
    let p = ms.push(m);
    if ms.len() == 0 {
        assert(p[0] == m);
        assert(p.drop_first() =~= Seq::<ModelV>::empty());
        assert(enc_models(Seq::<ModelV>::empty()) == Seq::<u8>::empty());
        assert(enc_models(p) =~= enc_models(ms) + enc_model(m));
    } else {
        assert(p[0] == ms[0]);
        assert(p.drop_first() =~= ms.drop_first().push(m));
        lemma_enc_models_snoc(ms.drop_first(), m);
        assert(enc_models(p) == enc_model(ms[0]) + (enc_models(ms.drop_first()) + enc_model(m)));
        assert(enc_models(p) =~= enc_models(ms) + enc_model(m));
    }
}

#[verifier::loop_isolation(false)]
fn push_bytes(out: &mut Vec<u8>, bs: &[u8])
    ensures
        final(out)@ == old(out)@ + bs@,
{
    let mut i: usize = 0;
    while i < bs.len()
        invariant
            i <= bs@.len(),
            out@ == old(out)@ + bs@.take(i as int),
        decreases bs@.len() - i,
    {
        out.push(*vstd::slice::slice_index_get(bs, i));
        proof {
            assert(old(out)@ + bs@.take(i + 1) =~= (old(out)@ + bs@.take(i as int)).push(
                bs@[i as int],
            ));
        }
        i = i + 1;
    }
    proof {
        assert(bs@.take(bs@.len() as int) =~= bs@);
    }
}

#[verifier::loop_isolation(false)]
fn write_u64(out: &mut Vec<u8>, x: u64)
    ensures
        final(out)@ == old(out)@ + enc_u64(x),
{
    let mut b = u64_to_le_bytes(x);
    out.append(&mut b);
}

#[verifier::loop_isolation(false)]
fn write_str(out: &mut Vec<u8>, s: &str)
    ensures
        final(out)@ == old(out)@ + enc_str(s@),
        wf_str(s@),
{
    let bs = s.as_bytes();
    write_u64(out, bs.len() as u64);
    push_bytes(out, bs);
    proof {
        assert(final(out)@ =~= old(out)@ + enc_str(s@));
    }
}

#[verifier::loop_isolation(false)]
fn write_entry(out: &mut Vec<u8>, e: &CacheEntry)
    ensures
        final(out)@ == old(out)@ + enc_entry(e@),
        wf_entry(e@),
{
    write_str(out, e.command.as_str());
    write_str(out, e.text.as_str());
    proof {
        assert(final(out)@ =~= old(out)@ + enc_entry(e@));
    }
}

#[verifier::loop_isolation(false)]
fn write_model(out: &mut Vec<u8>, m: &ModelCache)
    ensures
        final(out)@ == old(out)@ + enc_model(m@),
        wf_model(m@),
{
    write_str(out, m.model.as_str());
    write_u64(out, m.entries.len() as u64);
    let ghost head = old(out)@ + enc_str(m@.model) + enc_u64(m@.entries.len() as u64);
    assert(out@ == head);
    let mut i: usize = 0;
    while i < m.entries.len()
        invariant
            i <= m@.entries.len(),
            m@.entries.len() == m.entries@.len(),
            out@ == head + enc_entries(m@.entries.take(i as int)),
            forall|j: int| 0 <= j < i ==> wf_entry(#[trigger] m@.entries[j]),
        decreases m.entries@.len() - i,
    {
        write_entry(out, &m.entries[i]);
        proof {
            assert(m@.entries[i as int] == m.entries@[i as int]@);
            lemma_enc_entries_snoc(m@.entries.take(i as int), m@.entries[i as int]);
            assert(m@.entries.take(i as int).push(m@.entries[i as int]) =~= m@.entries.take(
                i + 1,
            ));
            assert(out@ =~= head + enc_entries(m@.entries.take(i + 1)));
        }
        i = i + 1;
    }
    proof {
        assert(m@.entries.take(m@.entries.len() as int) =~= m@.entries);
        assert(final(out)@ =~= old(out)@ + enc_model(m@));
    }
}

/// Serializes a configuration record to its deterministic byte format.
#[verifier::loop_isolation(false)]
#[verifier::rlimit(50)]
pub fn serialize(cfg: &LlmConfig) -> (out: Vec<u8>)
    ensures
        out@ == spec_serialize(cfg@),
        wf_view(cfg@),
{
    let mut out: Vec<u8> = Vec::new();
    let tag: u8 = match cfg.engine {
        Engine::Openai => 0,
        Engine::Ollama => 1,
        Engine::Google => 2,
    };
    out.push(tag);
    let ghost g1 = seq![engine_tag(cfg@.engine)];
    proof {
        assert(out@ =~= g1);
    }
    write_str(&mut out, cfg.model.as_str());
    let ghost g2 = g1 + enc_str(cfg@.model);
    match &cfg.openai_key {
        None => {
            out.push(0u8);
            proof {
                assert(cfg@.openai_key is None);
                assert(out@ =~= g2 + enc_opt_str(cfg@.openai_key));
            }
        },
        Some(s) => {
            out.push(1u8);
            write_str(&mut out, s.as_str());
            proof {
                assert(cfg@.openai_key == Some(s@));
                assert(out@ =~= g2 + enc_opt_str(cfg@.openai_key));
            }
        },
    }
    let ghost g3 = g2 + enc_opt_str(cfg@.openai_key);
    match &cfg.gemini_key {
        None => {
            out.push(0u8);
            proof {
                assert(cfg@.gemini_key is None);
                assert(out@ =~= g3 + enc_opt_str(cfg@.gemini_key));
            }
        },
        Some(s) => {
            out.push(1u8);
            write_str(&mut out, s.as_str());
            proof {
                assert(cfg@.gemini_key == Some(s@));
                assert(out@ =~= g3 + enc_opt_str(cfg@.gemini_key));
            }
        },
    }
    let ghost g4 = g3 + enc_opt_str(cfg@.gemini_key);
    write_u64(&mut out, cfg.buffer.len() as u64);
    let ghost g5 = g4 + enc_u64(cfg@.buffer.len() as u64);
    proof {
        assert(out@ =~= g5);
    }
    let mut i: usize = 0;
    while i < cfg.buffer.len()
        invariant
            i <= cfg@.buffer.len(),
            cfg@.buffer.len() == cfg.buffer@.len(),
            out@ == g5 + enc_models(cfg@.buffer.take(i as int)),
            forall|j: int| 0 <= j < i ==> wf_model(#[trigger] cfg@.buffer[j]),
        decreases cfg.buffer@.len() - i,
    {
        write_model(&mut out, &cfg.buffer[i]);
        proof {
            assert(cfg@.buffer[i as int] == cfg.buffer@[i as int]@);
            lemma_enc_models_snoc(cfg@.buffer.take(i as int), cfg@.buffer[i as int]);
            assert(cfg@.buffer.take(i as int).push(cfg@.buffer[i as int]) =~= cfg@.buffer.take(
                i + 1,
            ));
            assert(out@ =~= g5 + enc_models(cfg@.buffer.take(i + 1)));
        }
        i = i + 1;
    }
    proof {
        assert(cfg@.buffer.take(cfg@.buffer.len() as int) =~= cfg@.buffer);
        assert(out@ =~= spec_serialize(cfg@));
    }
    out
}

fn read_u8(b: &[u8], pos: usize) -> (r: Option<(u8, usize)>)
    requires
        pos <= b@.len(),
    ensures
        match r {
            Some((x, p)) => p_u8(b@, pos as int) == Some((x, p as int)) && p <= b@.len(),
            None => p_u8(b@, pos as int) is None,
        },
{
    if pos < b.len() {
        Some((*vstd::slice::slice_index_get(b, pos), pos + 1))
    } else {
        None
    }
}

fn read_u64(b: &[u8], pos: usize) -> (r: Option<(u64, usize)>)
    requires
        pos <= b@.len(),
    ensures
        match r {
            Some((x, p)) => p_u64(b@, pos as int) == Some((x, p as int)) && p <= b@.len(),
            None => p_u64(b@, pos as int) is None,
        },
{
    if b.len() - pos >= 8 {
        let s = slice_subrange(b, pos, pos + 8);
        let x = u64_from_le_bytes(s);
        Some((x, pos + 8))
    } else {
        None
    }
}

fn read_chunk<'a>(b: &'a [u8], pos: usize) -> (r: Option<(&'a [u8], usize)>)
    requires
        pos <= b@.len(),
    ensures
        match r {
            Some((c, p)) => p_chunk(b@, pos as int) == Some((c@, p as int)) && p <= b@.len(),
            None => p_chunk(b@, pos as int) is None,
        },
{
    match read_u64(b, pos) {
        None => None,
        Some((n, p)) => {
            if n <= (b.len() - p) as u64 {
                let n_us = n as usize;
                let c = slice_subrange(b, p, p + n_us);
                Some((c, p + n_us))
            } else {
                None
            }
        },
    }
}

fn read_string(b: &[u8], pos: usize) -> (r: Option<(String, usize)>)
    requires
        pos <= b@.len(),
    ensures
        match r {
            Some((s, p)) => p_str(b@, pos as int) == Some((s@, p as int)) && p <= b@.len(),
            None => p_str(b@, pos as int) is None,
        },
{
    match read_chunk(b, pos) {
        None => None,
        Some((c, p)) => match core::str::from_utf8(c) {
            Ok(s) => {
                proof {
                    broadcast use encode_utf8_valid_utf8;
                    broadcast use encode_utf8_decode_utf8;

                    assert(encode_utf8(s@) == c@);
                    assert(valid_utf8(c@));
                    assert(decode_utf8(c@) == s@);
                }
                Some((s.to_owned(), p))
            },
            Err(_) => {
                proof {
                    assert(!valid_utf8(c@));
                }
                None
            },
        },
    }
}

fn read_opt_string(b: &[u8], pos: usize) -> (r: Option<(Option<String>, usize)>)
    requires
        pos <= b@.len(),
    ensures
        match r {
            Some((o, p)) => p_opt_str(b@, pos as int) == Some((o.deep_view(), p as int)) && p
                <= b@.len(),
            None => p_opt_str(b@, pos as int) is None,
        },
{
    match read_u8(b, pos) {
        None => None,
        Some((t, p)) => {
            if t == 0 {
                Some((None, p))
            } else if t == 1 {
                match read_string(b, p) {
                    None => None,
                    Some((s, p2)) => Some((Some(s), p2)),
                }
            } else {
                None
            }
        },
    }
}

fn read_engine(b: &[u8], pos: usize) -> (r: Option<(Engine, usize)>)
    requires
        pos <= b@.len(),
    ensures
        match r {
            Some((e, p)) => p_engine(b@, pos as int) == Some((e, p as int)) && p <= b@.len(),
            None => p_engine(b@, pos as int) is None,
        },
{
    match read_u8(b, pos) {
        None => None,
        Some((t, p)) => {
            if t == 0 {
                Some((Engine::Openai, p))
            } else if t == 1 {
                Some((Engine::Ollama, p))
            } else if t == 2 {
                Some((Engine::Google, p))
            } else {
                None
            }
        },
    }
}

#[verifier::loop_isolation(false)]
fn read_entries(b: &[u8], pos: usize, n: u64) -> (r: Option<(Vec<CacheEntry>, usize)>)
    requires
        pos <= b@.len(),
    ensures
        match r {
            Some((es, p)) => p_entries(b@, pos as int, n) == Some((es.deep_view(), p as int)) && p
                <= b@.len(),
            None => p_entries(b@, pos as int, n) is None,
        },
{
    let mut acc: Vec<CacheEntry> = Vec::new();
    let mut cur: usize = pos;
    let mut k: u64 = 0;
    proof {
        assert(acc.deep_view() =~= Seq::<EntryV>::empty());
    }
    while k < n
        invariant
            k <= n,
            cur <= b@.len(),
            p_entries(b@, pos as int, n) == (match p_entries(b@, cur as int, (n - k) as u64) {
                Some((rest, p)) => Some((acc.deep_view() + rest, p)),
                None => None::<(Seq<EntryV>, int)>,
            }),
        decreases n - k,
    {
        let cmd = match read_string(b, cur) {
            None => {
                return None;
            },
            Some(x) => x,
        };
        let txt = match read_string(b, cmd.1) {
            None => {
                return None;
            },
            Some(x) => x,
        };
        let ghost pre = acc.deep_view();
        let ghost pre_s = acc@;
        let e = CacheEntry { command: cmd.0, text: txt.0 };
        let ghost ev = e@;
        acc.push(e);
        proof {
            assert(p_entry(b@, cur as int) == Some((ev, txt.1 as int)));
            assert forall|j: int| 0 <= j < acc.deep_view().len() implies acc.deep_view()[j]
                == pre.push(ev)[j] by {
                if j < pre.len() {
                    assert(acc@[j] == pre_s[j]);
                    assert(pre[j] == pre_s[j].deep_view());
                } else {
                    assert(acc@[j] == e);
                }
            }
            assert(acc.deep_view() =~= pre.push(ev));
            assert forall|rest: Seq<EntryV>| true implies pre + (seq![ev] + rest) =~= pre.push(ev)
                + rest by {}
        }
        cur = txt.1;
        k = k + 1;
    }
    proof {
        assert(p_entries(b@, cur as int, 0) == Some((Seq::<EntryV>::empty(), cur as int)));
        assert(acc.deep_view() + Seq::<EntryV>::empty() =~= acc.deep_view());
    }
    Some((acc, cur))
}

#[verifier::loop_isolation(false)]
fn read_model(b: &[u8], pos: usize) -> (r: Option<(ModelCache, usize)>)
    requires
        pos <= b@.len(),
    ensures
        match r {
            Some((m, p)) => p_model(b@, pos as int) == Some((m@, p as int)) && p <= b@.len(),
            None => p_model(b@, pos as int) is None,
        },
{
    let name = match read_string(b, pos) {
        None => {
            return None;
        },
        Some(x) => x,
    };
    let cnt = match read_u64(b, name.1) {
        None => {
            return None;
        },
        Some(x) => x,
    };
    let es = match read_entries(b, cnt.1, cnt.0) {
        None => {
            return None;
        },
        Some(x) => x,
    };
    let m = ModelCache { model: name.0, entries: es.0 };
    proof {
        assert(m@.model == p_str(b@, pos as int).unwrap().0);
        assert(m@.entries == p_entries(b@, cnt.1 as int, cnt.0).unwrap().0);
    }
    Some((m, es.1))
}

#[verifier::loop_isolation(false)]
fn read_models(b: &[u8], pos: usize, n: u64) -> (r: Option<(Vec<ModelCache>, usize)>)
    requires
        pos <= b@.len(),
    ensures
        match r {
            Some((ms, p)) => p_models(b@, pos as int, n) == Some((ms.deep_view(), p as int)) && p
                <= b@.len(),
            None => p_models(b@, pos as int, n) is None,
        },
{
    let mut acc: Vec<ModelCache> = Vec::new();
    let mut cur: usize = pos;
    let mut k: u64 = 0;
    proof {
        assert(acc.deep_view() =~= Seq::<ModelV>::empty());
    }
    while k < n
        invariant
            k <= n,
            cur <= b@.len(),
            p_models(b@, pos as int, n) == (match p_models(b@, cur as int, (n - k) as u64) {
                Some((rest, p)) => Some((acc.deep_view() + rest, p)),
                None => None::<(Seq<ModelV>, int)>,
            }),
        decreases n - k,
    {
        let m = match read_model(b, cur) {
            None => {
                return None;
            },
            Some(x) => x,
        };
        let ghost pre = acc.deep_view();
        let ghost pre_s = acc@;
        let ghost mv = m.0@;
        acc.push(m.0);
        proof {
            assert forall|j: int| 0 <= j < acc.deep_view().len() implies acc.deep_view()[j]
                == pre.push(mv)[j] by {
                if j < pre.len() {
                    assert(acc@[j] == pre_s[j]);
                    assert(pre[j] == pre_s[j].deep_view());
                } else {
                    assert(acc@[j] == pre_s.push(acc@[j])[pre_s.len() as int]);
                }
            }
            assert(acc.deep_view() =~= pre.push(mv));
            assert forall|rest: Seq<ModelV>| true implies pre + (seq![mv] + rest) =~= pre.push(mv)
                + rest by {}
        }
        cur = m.1;
        k = k + 1;
    }
    proof {
        assert(p_models(b@, cur as int, 0) == Some((Seq::<ModelV>::empty(), cur as int)));
        assert(acc.deep_view() + Seq::<ModelV>::empty() =~= acc.deep_view());
    }
    Some((acc, cur))
}

/// Deserializes a configuration record from its byte format; every byte
/// string that is not the complete serialization of a record is rejected
/// as corrupt.
pub fn deserialize(b: &[u8]) -> (r: Result<LlmConfig, StoreError>)
    ensures
        match r {
            Ok(c) => spec_parse(b@) == Some(c@),
            Err(e) => spec_parse(b@) is None && e == StoreError::Corrupt,
        },
{
    let eng = match read_engine(b, 0) {
        None => {
            return Err(StoreError::Corrupt);
        },
        Some(x) => x,
    };
    let model = match read_string(b, eng.1) {
        None => {
            return Err(StoreError::Corrupt);
        },
        Some(x) => x,
    };
    let ok = match read_opt_string(b, model.1) {
        None => {
            return Err(StoreError::Corrupt);
        },
        Some(x) => x,
    };
    let gk = match read_opt_string(b, ok.1) {
        None => {
            return Err(StoreError::Corrupt);
        },
        Some(x) => x,
    };
    let cnt = match read_u64(b, gk.1) {
        None => {
            return Err(StoreError::Corrupt);
        },
        Some(x) => x,
    };
    let ms = match read_models(b, cnt.1, cnt.0) {
        None => {
            return Err(StoreError::Corrupt);
        },
        Some(x) => x,
    };
    if ms.1 != b.len() {
        return Err(StoreError::Corrupt);
    }
    let c = LlmConfig {
        engine: eng.0,
        model: model.0,
        openai_key: ok.0,
        gemini_key: gk.0,
        buffer: ms.0,
    };
    proof {
        assert(spec_parse(b@) == Some(c@));
    }
    Ok(c)
}

} // verus!

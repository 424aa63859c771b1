use vstd::prelude::*;
use vstd::string::StringExecFns;
use crate::cache::{
    buffer_map, buffer_put, buffer_remove_command, inner_of, ModelCache, ModelV,
};
use crate::engine::Engine;

verus! {

/// The persisted configuration record: the selected engine, its model, the
/// per-engine credentials, and the two-level response cache.
pub struct LlmConfig {
    pub engine: Engine,
    pub model: String,
    pub openai_key: Option<String>,
    pub gemini_key: Option<String>,
    pub buffer: Vec<ModelCache>,
}

/// Mathematical image of the configuration record.
#[verifier::ext_equal]
pub struct ConfigV {
    pub engine: Engine,
    pub model: Seq<char>,
    pub openai_key: Option<Seq<char>>,
    pub gemini_key: Option<Seq<char>>,
    pub buffer: Seq<ModelV>,
}

impl View for LlmConfig {
    type V = ConfigV;

    open spec fn view(&self) -> ConfigV {
        ConfigV {
            engine: self.engine,
            model: self.model@,
            openai_key: self.openai_key.deep_view(),
            gemini_key: self.gemini_key.deep_view(),
            buffer: self.buffer.deep_view(),
        }
    }
}

impl DeepView for LlmConfig {
    type V = ConfigV;

    open spec fn deep_view(&self) -> ConfigV {
        self.view()
    }
}

/// The record a first run starts from: the OpenAI engine with its default
/// model, no credentials and an empty cache.
pub open spec fn default_config_view() -> ConfigV {
    ConfigV {
        engine: Engine::Openai,
        model: "gpt-4-turbo"@,
        openai_key: None,
        gemini_key: None,
        buffer: Seq::empty(),
    }
}

impl Default for LlmConfig {
    /// First-run defaults, substituted when no configuration blob exists.
    fn default() -> (r: Self)
        ensures
            r@ == default_config_view(),
    {
        let c = LlmConfig {
            engine: Engine::Openai,
            model: String::from_str("gpt-4-turbo"),
            openai_key: None,
            gemini_key: None,
            buffer: Vec::new(),
        };
        proof {
            assert(c@.buffer =~= Seq::<ModelV>::empty());
            assert(c@ =~= default_config_view());
        }
        c
    }
}

impl LlmConfig {
    /// Clears the whole response cache; every other field is kept.
    pub fn reset_all_buffer(&mut self)
        ensures
            final(self)@ == (ConfigV { buffer: Seq::<ModelV>::empty(), ..old(self)@ }),
            buffer_map(final(self)@.buffer) =~= Map::<Seq<char>, Map<Seq<char>, Seq<char>>>::empty(),
    {
        self.buffer.clear();
        proof {
            assert(self.buffer.deep_view() =~= Seq::<ModelV>::empty());
            assert(final(self)@ =~= (ConfigV { buffer: Seq::<ModelV>::empty(), ..old(self)@ }));
        }
    }

    /// Removes `key` from the cache of every model, regardless of the
    /// currently selected model; every other field is kept.
    pub fn reset_buffer_key(&mut self, key: &str)
        ensures
            final(self)@.engine == old(self)@.engine,
            final(self)@.model == old(self)@.model,
            final(self)@.openai_key == old(self)@.openai_key,
            final(self)@.gemini_key == old(self)@.gemini_key,
            forall|m: Seq<char>|
                buffer_map(final(self)@.buffer).contains_key(m) <==> buffer_map(
                    old(self)@.buffer,
                ).contains_key(m),
            forall|m: Seq<char>|
                #[trigger] buffer_map(old(self)@.buffer).contains_key(m) ==> buffer_map(
                    final(self)@.buffer,
                )[m] == buffer_map(old(self)@.buffer)[m].remove(key@),
    {
        buffer_remove_command(&mut self.buffer, key);
    }

    /// Returns the cached response of `model` for `command`, if any.
    pub fn get_cached(&self, model: &str, command: &str) -> (r: Option<String>)
        ensures
            match r {
                Some(t) => {
                    &&& buffer_map(self@.buffer).contains_key(model@)
                    &&& buffer_map(self@.buffer)[model@].contains_key(command@)
                    &&& t@ == buffer_map(self@.buffer)[model@][command@]
                },
                None => !buffer_map(self@.buffer).contains_key(model@) || !buffer_map(
                    self@.buffer,
                )[model@].contains_key(command@),
            },
    {
        crate::cache::buffer_get(&self.buffer, model, command)
    }

    /// Inserts or overwrites the cached response of `model` for `command`;
    /// every other field is kept.
    pub fn put_cached(&mut self, model: &str, command: &str, text: &str)
        ensures
            final(self)@.engine == old(self)@.engine,
            final(self)@.model == old(self)@.model,
            final(self)@.openai_key == old(self)@.openai_key,
            final(self)@.gemini_key == old(self)@.gemini_key,
            buffer_map(final(self)@.buffer) =~= buffer_map(old(self)@.buffer).insert(
                model@,
                inner_of(old(self)@.buffer, model@).insert(command@, text@),
            ),
    {
        buffer_put(&mut self.buffer, model, command, text);
    }

    /// The cache read applied before a request: a custom per-invocation
    /// prompt always bypasses the cache, otherwise the entry stored under
    /// the selected model is returned.
    pub fn lookup_response(&self, command: &str, custom: bool) -> (r: Option<String>)
        ensures
            custom ==> r is None,
            !custom ==> match r {
                Some(t) => {
                    &&& buffer_map(self@.buffer).contains_key(self@.model)
                    &&& buffer_map(self@.buffer)[self@.model].contains_key(command@)
                    &&& t@ == buffer_map(self@.buffer)[self@.model][command@]
                },
                None => !buffer_map(self@.buffer).contains_key(self@.model) || !buffer_map(
                    self@.buffer,
                )[self@.model].contains_key(command@),
            },
    {
        if custom {
            None
        } else {
            self.get_cached(self.model.as_str(), command)
        }
    }

    /// The cache write applied after a request: a response to a custom
    /// prompt is ephemeral and leaves the record unchanged, otherwise it is
    /// stored under the selected model.
    pub fn record_response(&mut self, command: &str, text: &str, custom: bool)
        ensures
            custom ==> final(self)@ == old(self)@,
            !custom ==> {
                &&& final(self)@.engine == old(self)@.engine
                &&& final(self)@.model == old(self)@.model
                &&& final(self)@.openai_key == old(self)@.openai_key
                &&& final(self)@.gemini_key == old(self)@.gemini_key
                &&& buffer_map(final(self)@.buffer) =~= buffer_map(old(self)@.buffer).insert(
                    old(self)@.model,
                    inner_of(old(self)@.buffer, old(self)@.model).insert(command@, text@),
                )
            },
    {
        if !custom {
            let m = self.model.clone();
            buffer_put(&mut self.buffer, m.as_str(), command, text);
        }
    }

    /// The credential the selected engine requires: the engine-specific key
    /// if one is stored, `None` for an engine without credentials or when
    /// the key is missing.
    pub fn credential_for(&self) -> (r: Option<String>)
        ensures
            self.engine == Engine::Openai ==> r.deep_view() == self@.openai_key,
            self.engine == Engine::Google ==> r.deep_view() == self@.gemini_key,
            self.engine == Engine::Ollama ==> r is None,
    {
        match self.engine {
            Engine::Openai => match &self.openai_key {
                Some(k) => Some(k.clone()),
                None => None,
            },
            Engine::Google => match &self.gemini_key {
                Some(k) => Some(k.clone()),
                None => None,
            },
            Engine::Ollama => None,
        }
    }
}

} // verus!

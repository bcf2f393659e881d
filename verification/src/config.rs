//! User settings: a few known keys with their own fields, and any other key
//! kept as free text.
use vstd::prelude::*;
use vstd::utf8::{decode_utf8, encode_utf8, is_char_boundary};
use crate::collections::StrMap;
use crate::text::str_eq;

verus! {

/// The settings of the tool.
pub struct Config {
    pub github_token: Option<String>,
    pub default_base_branch: String,
    pub auto_push: bool,
    pub draft_prs: bool,
    pub pr_template: Option<String>,
    pub user_settings: StrMap<String>,
}

/// What a `Config` holds.
pub struct ConfigView {
    pub github_token: Option<Seq<char>>,
    pub default_base_branch: Seq<char>,
    pub auto_push: bool,
    pub draft_prs: bool,
    pub pr_template: Option<Seq<char>>,
    pub user_settings: Map<Seq<char>, Seq<char>>,
}

impl View for Config {
    type V = ConfigView;

    open spec fn view(&self) -> ConfigView {
        ConfigView {
            github_token: match self.github_token {
                Some(t) => Some(t@),
                None => None,
            },
            default_base_branch: self.default_base_branch@,
            auto_push: self.auto_push,
            draft_prs: self.draft_prs,
            pr_template: match self.pr_template {
                Some(t) => Some(t@),
                None => None,
            },
            user_settings: self.user_settings@,
        }
    }
}

/// Why a setting was refused.
#[derive(Debug, PartialEq, Eq, Structural)]
pub enum ConfigError {
    /// A yes/no setting was given something other than `true` or `false`.
    InvalidBool,
}

impl ConfigError {
    /// The message for this error.
    pub fn message(&self) -> (r: String)
        ensures
            r@ == "provided string was not `true` or `false`"@,
    {
        match self {
            ConfigError::InvalidBool => "provided string was not `true` or `false`".to_owned(),
        }
    }
}

/// The text of a yes/no value.
pub open spec fn bool_text(b: bool) -> Seq<char> {
    if b {
        "true"@
    } else {
        "false"@
    }
}

/// A yes/no value read from text: only `true` and `false` are accepted.
pub open spec fn bool_from_text(s: Seq<char>) -> Option<bool> {
    if s == "true"@ {
        Some(true)
    } else if s == "false"@ {
        Some(false)
    } else {
        None
    }
}

/// The value stored under `key`, if any.
pub open spec fn config_get(c: ConfigView, key: Seq<char>) -> Option<Seq<char>> {
    if key == "github_token"@ {
        c.github_token
    } else if key == "default_base_branch"@ {
        Some(c.default_base_branch)
    } else if key == "auto_push"@ {
        Some(bool_text(c.auto_push))
    } else if key == "draft_prs"@ {
        Some(bool_text(c.draft_prs))
    } else if key == "pr_template"@ {
        c.pr_template
    } else if c.user_settings.contains_key(key) {
        Some(c.user_settings[key])
    } else {
        None
    }
}

/// The settings after storing `value` under `key`, or `None` when a yes/no
/// key is given text that is neither `true` nor `false`.
pub open spec fn config_set(c: ConfigView, key: Seq<char>, value: Seq<char>) -> Option<ConfigView> {
    if key == "github_token"@ {
        Some(ConfigView { github_token: Some(value), ..c })
    } else if key == "default_base_branch"@ {
        Some(ConfigView { default_base_branch: value, ..c })
    } else if key == "auto_push"@ {
        match bool_from_text(value) {
            Some(b) => Some(ConfigView { auto_push: b, ..c }),
            None => None,
        }
    } else if key == "draft_prs"@ {
        match bool_from_text(value) {
            Some(b) => Some(ConfigView { draft_prs: b, ..c }),
            None => None,
        }
    } else if key == "pr_template"@ {
        Some(ConfigView { pr_template: Some(value), ..c })
    } else {
        Some(ConfigView { user_settings: c.user_settings.insert(key, value), ..c })
    }
}

/// A token with all but its first and last four bytes hidden; a token of
/// eight bytes or fewer is hidden whole.
pub open spec fn masked(token: Seq<char>) -> Seq<char> {
    let b = encode_utf8(token);
    if b.len() > 8 {
        decode_utf8(b.subrange(0, 4)) + "..."@ + decode_utf8(b.subrange(b.len() - 4, b.len() as int))
    } else {
        "***"@
    }
}

/// The token's bytes can be counted in a `usize`, and the token can be cut
/// four bytes from either end without splitting a character.
pub open spec fn maskable(token: Seq<char>) -> bool {
    let b = encode_utf8(token);
    &&& b.len() <= usize::MAX
    &&& b.len() > 8 ==> is_char_boundary(b, 4) && is_char_boundary(b, b.len() - 4)
}

/// Every setting with its value as listed: the token masked, the yes/no
/// settings as text, and the free-form settings over them.
pub open spec fn config_list(c: ConfigView) -> Map<Seq<char>, Seq<char>> {
    let m0 = match c.github_token {
        Some(t) => Map::<Seq<char>, Seq<char>>::empty().insert("github_token"@, masked(t)),
        None => Map::<Seq<char>, Seq<char>>::empty(),
    };
    let m1 = m0.insert("default_base_branch"@, c.default_base_branch).insert(
        "auto_push"@,
        bool_text(c.auto_push),
    ).insert("draft_prs"@, bool_text(c.draft_prs));
    let m2 = match c.pr_template {
        Some(t) => m1.insert("pr_template"@, t),
        None => m1,
    };
    m2.union_prefer_right(c.user_settings)
}

/// Read a yes/no value: `true` or `false`, nothing else.
pub fn parse_bool(s: &str) -> (r: Option<bool>)
    ensures
        r == bool_from_text(s@),
{
    if str_eq(s, "true") {
        Some(true)
    } else if str_eq(s, "false") {
        Some(false)
    } else {
        None
    }
}

/// The text of a yes/no value.
pub fn bool_to_string(b: bool) -> (r: String)
    ensures
        r@ == bool_text(b),
{
    if b {
        "true".to_owned()
    } else {
        "false".to_owned()
    }
}

/// Hide a token for display, keeping its first and last four bytes when it
/// is longer than eight bytes.
pub fn mask_token(token: &str) -> (r: String)
    requires
        maskable(token@),
    ensures
        r@ == masked(token@),
{
    proof {
        vstd::utf8::encode_utf8_valid_utf8(token@);
    }
    let n = token.len();
    if n > 8 {
        let (head, _) = token.split_at(4);
        let (_, tail) = token.split_at(n - 4);
        proof {
            vstd::utf8::encode_utf8_decode_utf8(head@);
            vstd::utf8::encode_utf8_decode_utf8(tail@);
        }
        head.to_owned().concat("...").concat(tail)
    } else {
        "***".to_owned()
    }
}

impl Default for Config {
    fn default() -> (r: Config)
        ensures
            r.user_settings.wf(),
            r@ == (ConfigView {
                github_token: None,
                default_base_branch: "main"@,
                auto_push: true,
                draft_prs: false,
                pr_template: None,
                user_settings: Map::empty(),
            }),
    {
        Config {
            github_token: None,
            default_base_branch: "main".to_owned(),
            auto_push: true,
            draft_prs: false,
            pr_template: None,
            user_settings: StrMap::new(),
        }
    }
}

impl Config {
    /// Store `value` under `key`.  A yes/no key given text other than
    /// `true` or `false` is refused and nothing changes.
    pub fn set(&mut self, key: &str, value: &str) -> (r: Result<(), ConfigError>)
        requires
            old(self).user_settings.wf(),
        ensures
            final(self).user_settings.wf(),
            match config_set(old(self)@, key@, value@) {
                Some(c) => r is Ok && final(self)@ == c,
                None => r == Err::<(), ConfigError>(ConfigError::InvalidBool) && final(self)@ == old(self)@,
            },
    {
        if str_eq(key, "github_token") {
            self.github_token = Some(value.to_owned());
        } else if str_eq(key, "default_base_branch") {
            self.default_base_branch = value.to_owned();
        } else if str_eq(key, "auto_push") {
            match parse_bool(value) {
                Some(b) => self.auto_push = b,
                None => return Err(ConfigError::InvalidBool),
            }
        } else if str_eq(key, "draft_prs") {
            match parse_bool(value) {
                Some(b) => self.draft_prs = b,
                None => return Err(ConfigError::InvalidBool),
            }
        } else if str_eq(key, "pr_template") {
            self.pr_template = Some(value.to_owned());
        } else {
            self.user_settings.insert(key.to_owned(), value.to_owned());
        }
        Ok(())
    }

    /// The value stored under `key`, as text.
    pub fn get(&self, key: &str) -> (r: Option<String>)
        requires
            self.user_settings.wf(),
        ensures
            match r {
                Some(v) => config_get(self@, key@) == Some(v@),
                None => config_get(self@, key@) is None,
            },
    {
        if str_eq(key, "github_token") {
            match &self.github_token {
                Some(t) => Some(t.clone()),
                None => None,
            }
        } else if str_eq(key, "default_base_branch") {
            Some(self.default_base_branch.clone())
        } else if str_eq(key, "auto_push") {
            Some(bool_to_string(self.auto_push))
        } else if str_eq(key, "draft_prs") {
            Some(bool_to_string(self.draft_prs))
        } else if str_eq(key, "pr_template") {
            match &self.pr_template {
                Some(t) => Some(t.clone()),
                None => None,
            }
        } else {
            match self.user_settings.get(key) {
                Some(v) => Some(v.clone()),
                None => None,
            }
        }
    }

    /// Every setting with its value as shown to the user.
    pub fn list(&self) -> (r: StrMap<String>)
        requires
            self.user_settings.wf(),
            match self@.github_token {
                Some(t) => maskable(t),
                None => true,
            },
        ensures
            r.wf(),
            r@ == config_list(self@),
    {
        let mut settings: StrMap<String> = StrMap::new();
        match &self.github_token {
            Some(token) => {
                settings.insert("github_token".to_owned(), mask_token(token.as_str()));
            },
            None => {},
        }
        settings.insert("default_base_branch".to_owned(), self.default_base_branch.clone());
        settings.insert("auto_push".to_owned(), bool_to_string(self.auto_push));
        settings.insert("draft_prs".to_owned(), bool_to_string(self.draft_prs));
        match &self.pr_template {
            Some(template) => {
                settings.insert("pr_template".to_owned(), template.clone());
            },
            None => {},
        }
        let ghost base = settings@;
        let ghost us = self.user_settings@;
        proof {
            self.user_settings.lemma_wf();
        }
        let ghost ks = self.user_settings.keys();
        let n = self.user_settings.len();
        let mut i: usize = 0;
        while i < n
            invariant
                self.user_settings.wf(),
                us == self.user_settings@,
                ks == self.user_settings.keys(),
                n == ks.len(),
                ks.len() == self.user_settings.vals().len(),
                forall|j: int| 0 <= j < ks.len() ==> #[trigger] us[ks[j]] == self.user_settings.vals()[j],
                i <= n,
                settings.wf(),
                settings@ == base.union_prefer_right(us.restrict(ks.take(i as int).to_set())),
            decreases n - i,
        {
            let k = self.user_settings.key_at(i);
            let v = self.user_settings.value_at(i);
            let ghost before = settings@;
            settings.insert(k.clone(), v.clone());
            proof {
                assert(us[ks[i as int]] == v@);
                assert(ks.take(i + 1).to_set() =~= ks.take(i as int).to_set().insert(ks[i as int])) by {
                    assert(ks.take(i + 1) =~= ks.take(i as int).push(ks[i as int]));
                    Seq::lemma_to_set_insert_commutes(ks.take(i as int), ks[i as int]);
                    assert(ks.take(i as int).push(ks[i as int]) =~= ks.take(i as int) + seq![ks[i as int]]);
                }
                assert(us.contains_key(ks[i as int]));
                assert(settings@ =~= base.union_prefer_right(us.restrict(ks.take(i + 1).to_set())));
            }
            i = i + 1;
        }
        proof {
            assert(ks.take(n as int) =~= ks);
            assert(us.restrict(ks.to_set()) =~= us);
        }
        settings
    }
}

/// A setting that was accepted reads back as the text it was given.
pub proof fn law_get_after_set(c: ConfigView, key: Seq<char>, value: Seq<char>)
    requires
        config_set(c, key, value) is Some,
    ensures
        config_get(config_set(c, key, value).unwrap(), key) == Some(value),
{
    reveal_strlit("true");
    reveal_strlit("false");
}

/// Storing one setting leaves every other setting as it was.
pub proof fn law_set_leaves_other_keys(
    c: ConfigView,
    key: Seq<char>,
    value: Seq<char>,
    other: Seq<char>,
)
    requires
        config_set(c, key, value) is Some,
        other != key,
    ensures
        config_get(config_set(c, key, value).unwrap(), other) == config_get(c, other),
{
}

} // verus!

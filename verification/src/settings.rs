//! User settings: their defaults, their normal form and partial updates.
//! (The UI zoom factor is a float and is kept by the application layer.)
use vstd::prelude::*;

use crate::paths::{display_path, display_windows_path};
use crate::text::{chars_eq, chars_of, string_of, trim, trim_exec, CharSet};

verus! {

pub fn default_threads() -> (n: u32)
    ensures
        n == 16,
{
    16
}

pub fn default_theme() -> (s: String)
    ensures
        s@ == "dark"@,
{
    string_of(&chars_of("dark"))
}

pub fn default_locale() -> (s: String)
    ensures
        s@ == "zh"@,
{
    string_of(&chars_of("zh"))
}

pub fn default_proxy() -> (s: String)
    ensures
        s@ == "http://127.0.0.1:6990"@,
{
    string_of(&chars_of("http://127.0.0.1:6990"))
}

/// Most workers a download may use.
pub const MAX_THREADS: u32 = 64;

#[derive(Debug)]
pub struct Settings {
    pub theme: String,
    pub locale: String,
    /// Hugging Face access token, sent as `Authorization: Bearer`.
    pub hf_token: String,
    /// Generic bearer token, used when `hf_token` is empty.
    pub token: String,
    pub cookie: String,
    pub use_proxy: bool,
    pub proxy: String,
    pub threads: u32,
    /// Empty means the user's download folder.
    pub save_dir: String,
}

/// The content of the settings.
pub struct SettingsView {
    pub theme: Seq<char>,
    pub locale: Seq<char>,
    pub hf_token: Seq<char>,
    pub token: Seq<char>,
    pub cookie: Seq<char>,
    pub use_proxy: bool,
    pub proxy: Seq<char>,
    pub threads: u32,
    pub save_dir: Seq<char>,
}

impl View for Settings {
    type V = SettingsView;

    open spec fn view(&self) -> SettingsView {
        SettingsView {
            theme: self.theme@,
            locale: self.locale@,
            hf_token: self.hf_token@,
            token: self.token@,
            cookie: self.cookie@,
            use_proxy: self.use_proxy,
            proxy: self.proxy@,
            threads: self.threads,
            save_dir: self.save_dir@,
        }
    }
}

pub open spec fn default_settings() -> SettingsView {
    SettingsView {
        theme: "dark"@,
        locale: "zh"@,
        hf_token: seq![],
        token: seq![],
        cookie: seq![],
        use_proxy: false,
        proxy: "http://127.0.0.1:6990"@,
        threads: 16,
        save_dir: seq![],
    }
}

impl Default for Settings {
    fn default() -> (s: Settings)
        ensures
            s@ == default_settings(),
    {
        Settings {
            theme: default_theme(),
            locale: default_locale(),
            hf_token: String::new(),
            token: String::new(),
            cookie: String::new(),
            use_proxy: false,
            proxy: default_proxy(),
            threads: default_threads(),
            save_dir: String::new(),
        }
    }
}

/// The normal form: theme `light` or else `dark`, locale `en` or else `zh`
/// (both compared after trimming), tokens, cookie and proxy trimmed, the save
/// directory trimmed and shown without a verbatim prefix, threads clamped to `1..=64`.
pub open spec fn normal_settings(s: SettingsView) -> SettingsView {
    SettingsView {
        theme: if trim(s.theme, CharSet::Space) == "light"@ {
            "light"@
        } else {
            "dark"@
        },
        locale: if trim(s.locale, CharSet::Space) == "en"@ {
            "en"@
        } else {
            "zh"@
        },
        hf_token: trim(s.hf_token, CharSet::Space),
        token: trim(s.token, CharSet::Space),
        cookie: trim(s.cookie, CharSet::Space),
        use_proxy: s.use_proxy,
        proxy: trim(s.proxy, CharSet::Space),
        threads: if s.threads == 0 {
            1
        } else if s.threads > MAX_THREADS {
            MAX_THREADS
        } else {
            s.threads
        },
        save_dir: display_path(trim(s.save_dir, CharSet::Space)),
    }
}

fn trimmed(s: &String) -> (r: String)
    ensures
        r@ == trim(s@, CharSet::Space),
{
    let v = chars_of(s.as_str());
    string_of(&trim_exec(&v, CharSet::Space))
}

fn trimmed_is(s: &String, lit: &str) -> (r: bool)
    ensures
        r == (trim(s@, CharSet::Space) == lit@),
{
    let v = chars_of(s.as_str());
    let t = trim_exec(&v, CharSet::Space);
    let l = chars_of(lit);
    chars_eq(&t, &l)
}

/// Who sends the bearer token: the Hugging Face token when set, else the generic one.
pub open spec fn token_choice(s: SettingsView) -> Option<Seq<char>> {
    if s.hf_token.len() > 0 {
        Some(s.hf_token)
    } else if s.token.len() > 0 {
        Some(s.token)
    } else {
        None
    }
}

impl Settings {
    pub fn normalized(self) -> (r: Settings)
        ensures
            r@ == normal_settings(self@),
    {
        let theme = if trimmed_is(&self.theme, "light") {
            string_of(&chars_of("light"))
        } else {
            string_of(&chars_of("dark"))
        };
        let locale = if trimmed_is(&self.locale, "en") {
            string_of(&chars_of("en"))
        } else {
            string_of(&chars_of("zh"))
        };
        let save_trimmed = trimmed(&self.save_dir);
        let threads = if self.threads == 0 {
            1
        } else if self.threads > MAX_THREADS {
            MAX_THREADS
        } else {
            self.threads
        };
        Settings {
            theme,
            locale,
            hf_token: trimmed(&self.hf_token),
            token: trimmed(&self.token),
            cookie: trimmed(&self.cookie),
            use_proxy: self.use_proxy,
            proxy: trimmed(&self.proxy),
            threads,
            save_dir: display_windows_path(save_trimmed.as_str()),
        }
    }

    pub fn effective_token(&self) -> (r: Option<&str>)
        ensures
            match r {
                Some(t) => token_choice(self@) == Some(t@),
                None => token_choice(self@) is None,
            },
    {
        if !self.hf_token.as_str().is_empty() {
            Some(self.hf_token.as_str())
        } else if !self.token.as_str().is_empty() {
            Some(self.token.as_str())
        } else {
            None
        }
    }

    /// The folder downloads go to: the configured one, or `downloads_dir`
    /// (the user's download folder) when none is configured.
    pub fn resolve_save_dir(&self, downloads_dir: &str) -> (r: String)
        ensures
            r@ == if self.save_dir@.len() == 0 {
                downloads_dir@
            } else {
                self.save_dir@
            },
    {
        if self.save_dir.as_str().is_empty() {
            string_of(&chars_of(downloads_dir))
        } else {
            self.save_dir.clone()
        }
    }

    /// The settings with every field that `patch` sets replaced, then normalized.
    pub fn apply_patch(self, patch: SettingsPatch) -> (r: Settings)
        ensures
            r@ == normal_settings(patched(self@, patch@)),
    {
        let mut s = self;
        if let Some(v) = patch.theme {
            s.theme = v;
        }
        if let Some(v) = patch.locale {
            s.locale = v;
        }
        if let Some(v) = patch.hf_token {
            s.hf_token = v;
        }
        if let Some(v) = patch.token {
            s.token = v;
        }
        if let Some(v) = patch.cookie {
            s.cookie = v;
        }
        if let Some(v) = patch.use_proxy {
            s.use_proxy = v;
        }
        if let Some(v) = patch.proxy {
            s.proxy = v;
        }
        if let Some(v) = patch.threads {
            s.threads = v;
        }
        if let Some(v) = patch.save_dir {
            s.save_dir = v;
        }
        s.normalized()
    }
}

/// A partial update of the settings: the fields that are `Some` replace the current ones.
#[derive(Debug)]
pub struct SettingsPatch {
    pub theme: Option<String>,
    pub locale: Option<String>,
    pub hf_token: Option<String>,
    pub token: Option<String>,
    pub cookie: Option<String>,
    pub use_proxy: Option<bool>,
    pub proxy: Option<String>,
    pub threads: Option<u32>,
    pub save_dir: Option<String>,
}

pub struct PatchView {
    pub theme: Option<Seq<char>>,
    pub locale: Option<Seq<char>>,
    pub hf_token: Option<Seq<char>>,
    pub token: Option<Seq<char>>,
    pub cookie: Option<Seq<char>>,
    pub use_proxy: Option<bool>,
    pub proxy: Option<Seq<char>>,
    pub threads: Option<u32>,
    pub save_dir: Option<Seq<char>>,
}

pub open spec fn ov(o: Option<String>) -> Option<Seq<char>> {
    match o {
        Some(s) => Some(s@),
        None => None,
    }
}

impl View for SettingsPatch {
    type V = PatchView;

    open spec fn view(&self) -> PatchView {
        PatchView {
            theme: ov(self.theme),
            locale: ov(self.locale),
            hf_token: ov(self.hf_token),
            token: ov(self.token),
            cookie: ov(self.cookie),
            use_proxy: self.use_proxy,
            proxy: ov(self.proxy),
            threads: self.threads,
            save_dir: ov(self.save_dir),
        }
    }
}

pub open spec fn pick<T>(o: Option<T>, d: T) -> T {
    match o {
        Some(v) => v,
        None => d,
    }
}

/// The settings with the fields that the patch sets replaced.
pub open spec fn patched(s: SettingsView, p: PatchView) -> SettingsView {
    SettingsView {
        theme: pick(p.theme, s.theme),
        locale: pick(p.locale, s.locale),
        hf_token: pick(p.hf_token, s.hf_token),
        token: pick(p.token, s.token),
        cookie: pick(p.cookie, s.cookie),
        use_proxy: pick(p.use_proxy, s.use_proxy),
        proxy: pick(p.proxy, s.proxy),
        threads: pick(p.threads, s.threads),
        save_dir: pick(p.save_dir, s.save_dir),
    }
}

/// Normalizing twice is normalizing once, whenever the normalized save
/// directory is itself left alone by trimming and prefix stripping (a
/// directory such as `\\?\ x` is not: its second normalization trims the space).
pub proof fn lemma_normalize_idempotent(s: SettingsView)
    requires
        ({
            let d = display_path(trim(s.save_dir, CharSet::Space));
            trim(d, CharSet::Space) == d && display_path(d) == d
        }),
    ensures
        normal_settings(normal_settings(s)) == normal_settings(s),
{
    reveal_strlit("light");
    reveal_strlit("dark");
    reveal_strlit("en");
    reveal_strlit("zh");
    let n = normal_settings(s);
    assert(crate::text::lead_len("light"@, CharSet::Space) == 0);
    assert(crate::text::trail_len("light"@, CharSet::Space) == 0);
    assert(trim("light"@, CharSet::Space) =~= "light"@);
    assert(crate::text::lead_len("dark"@, CharSet::Space) == 0);
    assert(crate::text::trail_len("dark"@, CharSet::Space) == 0);
    assert(trim("dark"@, CharSet::Space) =~= "dark"@);
    assert("dark"@ != "light"@) by {
        assert("dark"@.len() != "light"@.len());
    }
    assert(crate::text::lead_len("en"@, CharSet::Space) == 0);
    assert(crate::text::trail_len("en"@, CharSet::Space) == 0);
    assert(trim("en"@, CharSet::Space) =~= "en"@);
    assert(crate::text::lead_len("zh"@, CharSet::Space) == 0);
    assert(crate::text::trail_len("zh"@, CharSet::Space) == 0);
    assert(trim("zh"@, CharSet::Space) =~= "zh"@);
    assert("zh"@ != "en"@) by {
        assert("zh"@[0] != "en"@[0]);
    }
    crate::text::lemma_trim_idempotent(s.hf_token, CharSet::Space);
    crate::text::lemma_trim_idempotent(s.token, CharSet::Space);
    crate::text::lemma_trim_idempotent(s.cookie, CharSet::Space);
    crate::text::lemma_trim_idempotent(s.proxy, CharSet::Space);
}

} // verus!

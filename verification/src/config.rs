//! What a service is configured with: the largest edit distance, the locale,
//! the run mode and an optional dictionary path.

use vstd::prelude::*;

verus! {

/// The edit distance of a service that was configured with none.
pub const DEFAULT_MAX_EDIT: u8 = 1;

/// The largest edit distance that a search goes to.
pub const MAX_EDIT_THRESHOLD: u8 = 3;

/// The number of workers of a service that was configured with none.
pub const POOL_SIZE: usize = 12;

#[derive(PartialEq, Eq, Clone, Copy, Debug, Structural)]
pub enum SupportedLocale {
    EnUs,
}

#[derive(PartialEq, Eq, Clone, Copy, Debug, Structural)]
pub enum RunMode {
    SpeedSensitive,
    SpaceSensitive,
}

/// Mathematical value of a [`Config`].
pub struct ConfigView {
    pub max_edit: u8,
    pub pool_size: usize,
    pub locale: SupportedLocale,
    pub run_mode: RunMode,
    pub override_dict: Seq<char>,
}

#[derive(Debug)]
pub struct Config {
    max_edit: u8,
    pool_size: usize,
    locale: SupportedLocale,
    run_mode: RunMode,
    override_dict: String,
}

/// The edit distance that is used when `max_edit` is asked for: the nearest
/// one between 1 and the threshold.
pub open spec fn clamped_edit(max_edit: u8) -> u8 {
    if max_edit > MAX_EDIT_THRESHOLD {
        MAX_EDIT_THRESHOLD
    } else if max_edit < 1 {
        1
    } else {
        max_edit
    }
}

/// The directory name of a locale.
pub open spec fn locale_tag(locale: SupportedLocale) -> Seq<char> {
    match locale {
        SupportedLocale::EnUs => "en-us"@,
    }
}

/// The file name of the dictionary of a run mode.
pub open spec fn dict_file(run_mode: RunMode) -> Seq<char> {
    match run_mode {
        RunMode::SpeedSensitive => "/freq_50k_preproc.txt"@,
        RunMode::SpaceSensitive => "/freq_50k.txt"@,
    }
}

/// The path of the dictionary of a configuration: the override when there is
/// one, else the file of the run mode in the directory of the locale.
pub open spec fn dict_path_of(config: ConfigView) -> Seq<char> {
    if config.override_dict.len() == 0 {
        "./resources/"@ + locale_tag(config.locale) + dict_file(config.run_mode)
    } else {
        config.override_dict
    }
}

impl View for Config {
    type V = ConfigView;

    closed spec fn view(&self) -> ConfigView {
        ConfigView {
            max_edit: self.max_edit,
            pool_size: self.pool_size,
            locale: self.locale,
            run_mode: self.run_mode,
            override_dict: self.override_dict@,
        }
    }
}

impl Config {
    #[verifier::type_invariant]
    spec fn edit_in_range(self) -> bool {
        1 <= self.max_edit <= MAX_EDIT_THRESHOLD
    }

    #[inline]
    pub fn new() -> (config: Config)
        ensures
            config@ == (ConfigView {
                max_edit: DEFAULT_MAX_EDIT,
                pool_size: POOL_SIZE,
                locale: SupportedLocale::EnUs,
                run_mode: RunMode::SpaceSensitive,
                override_dict: Seq::empty(),
            }),
    {
        let config = Config::new_with_params(
            1,
            POOL_SIZE,
            SupportedLocale::EnUs,
            RunMode::SpaceSensitive,
            "",
        );
        proof {
            reveal_strlit("");
            assert(config@.override_dict =~= Seq::<char>::empty());
        }
        config
    }

    pub fn new_with_params(
        max_edit: u8,
        pool_size: usize,
        locale: SupportedLocale,
        run_mode: RunMode,
        override_dict: &str,
    ) -> (config: Config)
        ensures
            config@ == (ConfigView {
                max_edit: clamped_edit(max_edit),
                pool_size,
                locale,
                run_mode,
                override_dict: override_dict@,
            }),
    {
        Config {
            max_edit: normalize_max_edit(max_edit),
            pool_size,
            locale,
            run_mode,
            override_dict: override_dict.to_owned(),
        }
    }

    pub fn get_dict_path(&self) -> (path: String)
        ensures
            path@ == dict_path_of(self@),
    {
        if self.override_dict.as_str().is_empty() {
            let mut path = String::from_str("./resources/");
            match self.locale {
                SupportedLocale::EnUs => path.append("en-us"),
            }
            match self.run_mode {
                RunMode::SpeedSensitive => path.append("/freq_50k_preproc.txt"),
                RunMode::SpaceSensitive => path.append("/freq_50k.txt"),
            }
            path
        } else {
            self.override_dict.clone()
        }
    }
}

impl Default for Config {
    fn default() -> (config: Self)
        ensures
            config@ == (ConfigView {
                max_edit: DEFAULT_MAX_EDIT,
                pool_size: POOL_SIZE,
                locale: SupportedLocale::EnUs,
                run_mode: RunMode::SpaceSensitive,
                override_dict: Seq::empty(),
            }),
    {
        Self::new()
    }
}

/// What can be read and set of a configuration.
pub trait AutoCorrectConfig {
    fn set_max_edit(&mut self, max_edit: u8);

    fn get_max_edit(&self) -> u8;

    fn set_pool_size(&mut self, pool_size: usize);

    fn get_pool_size(&self) -> usize;

    fn set_locale(&mut self, locale: SupportedLocale);

    fn get_locale(&self) -> SupportedLocale;

    fn set_run_mode(&mut self, mode: RunMode);

    fn get_run_mode(&self) -> RunMode;

    fn set_override_dict(&mut self, dict_path: &str);

    fn get_override_dict(&self) -> String;
}

impl AutoCorrectConfig for Config {
    fn set_max_edit(&mut self, max_edit: u8)
        ensures
            final(self)@ == (ConfigView { max_edit: clamped_edit(max_edit), ..old(self)@ }),
    {
        self.max_edit = normalize_max_edit(max_edit);
    }

    #[inline]
    fn get_max_edit(&self) -> (max_edit: u8)
        ensures
            max_edit == self@.max_edit,
            1 <= max_edit <= MAX_EDIT_THRESHOLD,
    {
        proof {
            use_type_invariant(self);
        }
        self.max_edit
    }

    fn set_pool_size(&mut self, pool_size: usize)
        ensures
            final(self)@ == (ConfigView { pool_size, ..old(self)@ }),
    {
        proof {
            use_type_invariant(&*self);
        }
        self.pool_size = pool_size;
    }

    #[inline]
    fn get_pool_size(&self) -> (pool_size: usize)
        ensures
            pool_size == self@.pool_size,
    {
        self.pool_size
    }

    #[inline]
    fn set_locale(&mut self, locale: SupportedLocale)
        ensures
            final(self)@ == (ConfigView { locale, ..old(self)@ }),
    {
        proof {
            use_type_invariant(&*self);
        }
        self.locale = locale;
    }

    #[inline]
    fn get_locale(&self) -> (locale: SupportedLocale)
        ensures
            locale == self@.locale,
    {
        self.locale
    }

    #[inline]
    fn set_run_mode(&mut self, mode: RunMode)
        ensures
            final(self)@ == (ConfigView { run_mode: mode, ..old(self)@ }),
    {
        proof {
            use_type_invariant(&*self);
        }
        self.run_mode = mode;
    }

    #[inline]
    fn get_run_mode(&self) -> (mode: RunMode)
        ensures
            mode == self@.run_mode,
    {
        self.run_mode
    }

    fn set_override_dict(&mut self, dict_path: &str)
        ensures
            final(self)@ == (ConfigView { override_dict: dict_path@, ..old(self)@ }),
    {
        proof {
            use_type_invariant(&*self);
        }
        self.override_dict = dict_path.to_owned();
    }

    #[inline]
    fn get_override_dict(&self) -> (dict_path: String)
        ensures
            dict_path@ == self@.override_dict,
    {
        self.override_dict.clone()
    }
}

impl Clone for Config {
    fn clone(&self) -> (config: Self)
        ensures
            config@ == self@,
    {
        proof {
            use_type_invariant(self);
        }
        Config::new_with_params(
            self.max_edit,
            self.pool_size,
            self.locale,
            self.run_mode,
            self.override_dict.as_str(),
        )
    }
}

/// The edit distance nearest to `max_edit` that a search supports.
pub fn normalize_max_edit(max_edit: u8) -> (edit: u8)
    ensures
        edit == clamped_edit(max_edit),
        1 <= edit <= MAX_EDIT_THRESHOLD,
{
    if max_edit > MAX_EDIT_THRESHOLD {
        MAX_EDIT_THRESHOLD
    } else if max_edit < 1 {
        1
    } else {
        max_edit
    }
}

} // verus!

//! Settings: where the calendar lives and how far ahead to plan.

use vstd::prelude::*;

verus! {

/// Basic-auth access to the calendar.
#[allow(non_camel_case_types)]
#[derive(Debug)]
pub struct basic {
    pub cal_url: String,
    pub cal_username: String,
    pub cal_pass: String,
}

/// OAuth client credentials.
#[allow(non_camel_case_types)]
#[derive(Debug)]
pub struct oath2 {
    pub client_id: String,
    pub client_secret: String,
}

/// Planning settings.
#[allow(non_camel_case_types)]
#[derive(Clone, Copy, Debug)]
pub struct main {
    pub days_ahead: i64,
}

/// All settings.
#[derive(Debug)]
pub struct ConfigInfo {
    pub basic: basic,
    pub main: main,
}

pub const DEFAULT_DAYS_AHEAD: i64 = 365;

impl Default for ConfigInfo {
    /// Placeholder settings, to be filled in by the user.
    fn default() -> (r: ConfigInfo)
        ensures
            r.main.days_ahead == DEFAULT_DAYS_AHEAD,
            r.basic.cal_url@ == "your cal url"@,
            r.basic.cal_username@ == "your cal_username"@,
            r.basic.cal_pass@ == "your cal password"@,
    {
        ConfigInfo {
            basic: basic {
                cal_url: String::from_str("your cal url"),
                cal_username: String::from_str("your cal_username"),
                cal_pass: String::from_str("your cal password"),
            },
            main: main { days_ahead: DEFAULT_DAYS_AHEAD },
        }
    }
}

} // verus!

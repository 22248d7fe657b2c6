use vstd::prelude::*;

verus! {

/// Where the store file lies: `<config_home>/cdd/config` where a configuration
/// home is given, else `<home>/.config/cdd/config`, and nowhere without either.
pub open spec fn store_location(config_home: Option<Seq<char>>, home: Option<Seq<char>>) -> Option<
    Seq<char>,
> {
    match config_home {
        Some(c) => Some(c + "/cdd/config"@),
        None => match home {
            Some(h) => Some(h + "/.config/cdd/config"@),
            None => None,
        },
    }
}

/// The view of an optional string.
pub open spec fn opt_view(s: Option<&str>) -> Option<Seq<char>> {
    match s {
        Some(t) => Some(t@),
        None => None,
    }
}

/// The path of the store file, from the configuration home and the home
/// directory as the environment gives them; `None` where neither is known.
pub fn config_file_path(config_home: Option<&str>, home: Option<&str>) -> (r: Option<String>)
    ensures
        match r {
            Some(p) => store_location(opt_view(config_home), opt_view(home)) == Some(p@),
            None => store_location(opt_view(config_home), opt_view(home)) is None,
        },
{
    match config_home {
        Some(c) => {
            let mut p = String::from_str(c);
            p.append("/cdd/config");
            Some(p)
        },
        None => match home {
            Some(h) => {
                let mut p = String::from_str(h);
                p.append("/.config/cdd/config");
                Some(p)
            },
            None => None,
        },
    }
}

} // verus!

use cliprec::errors::DiscoveryError;
use cliprec::profile::find_local_userdata_dir;
use cliprec::profile::steam_dir;

fn strings(names: &[&str]) -> Vec<String> {
    names.iter().map(|n| String::from(*n)).collect()
}

#[test]
fn single_profile_is_found() {
    let names = strings(&["anonymous", "12345678"]);
    assert_eq!(find_local_userdata_dir(&names), Ok(1));
}

#[test]
fn no_profile_is_an_error() {
    let names = strings(&["anonymous"]);
    assert_eq!(
        find_local_userdata_dir(&names),
        Err(DiscoveryError::NoProfileFound)
    );
    assert_eq!(
        find_local_userdata_dir(&Vec::new()),
        Err(DiscoveryError::NoProfileFound)
    );
}

#[test]
fn two_profiles_are_ambiguous() {
    let names = strings(&["11111111", "anonymous", "22222222"]);
    assert_eq!(
        find_local_userdata_dir(&names),
        Err(DiscoveryError::AmbiguousProfile)
    );
}

#[test]
fn steam_dir_is_under_home() {
    assert_eq!(steam_dir("/home/user"), "/home/user/.steam/steam");
}

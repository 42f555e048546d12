use stellar_swipe::common::{Address, Asset, AssetPair};
use stellar_swipe::keyed_map::{Key, KeyedMap};

fn address(strkey: &str) -> Address {
    Address { strkey: strkey.to_string() }
}

fn asset(code: &str, issuer: Option<&str>) -> Asset {
    Asset { code: code.to_string(), issuer: issuer.map(address) }
}

#[test]
fn assets_are_equal_by_code_and_issuer() {
    assert_eq!(asset("XLM", None), asset("XLM", None));
    assert_eq!(asset("USDC", Some("GA")), asset("USDC", Some("GA")));
    assert_ne!(asset("USDC", Some("GA")), asset("USDC", Some("GB")));
    assert_ne!(asset("USDC", Some("GA")), asset("USDC", None));
    assert_ne!(asset("USDC", None), asset("USDC", Some("GA")));
    assert_ne!(asset("USDC", Some("GA")), asset("USDT", Some("GA")));
    assert!(asset("XLM", None).equals(&asset("XLM", None)));
    assert!(!asset("XLM", None).equals(&asset("xlm", None)));
    assert!(address("GA").equals(&address("GA")));
    assert!(!address("GA").equals(&address("GAA")));
}

#[test]
fn pairs_are_directional() {
    let forth = AssetPair { base: asset("USDC", Some("GA")), quote: asset("XLM", None) };
    let back = AssetPair { base: asset("XLM", None), quote: asset("USDC", Some("GA")) };
    assert_eq!(forth, forth.clone());
    assert_ne!(forth, back);
    assert!(forth.same(&forth.clone()));
    assert!(!forth.same(&back));
    assert!(forth.equals(&forth));
    assert!(!back.equals(&forth));
}

#[test]
fn map_keeps_the_order_of_first_insertion() {
    let mut map: KeyedMap<Address, i128> = KeyedMap::new();
    assert_eq!(map.len(), 0);
    assert_eq!(map.get(&address("GA")), None);
    assert!(!map.contains_key(&address("GA")));
    map.insert(address("GA"), 1);
    map.insert(address("GB"), 2);
    map.insert(address("GA"), 3);
    assert_eq!(map.len(), 2);
    assert_eq!(map.key_at(0), &address("GA"));
    assert_eq!(map.key_at(1), &address("GB"));
    assert_eq!(map.get(&address("GA")), Some(&3));
    assert_eq!(map.get(&address("GB")), Some(&2));
    assert_eq!(map.get(&address("GC")), None);
    assert!(map.contains_key(&address("GB")));
    assert!(!map.contains_key(&address("G")));
}

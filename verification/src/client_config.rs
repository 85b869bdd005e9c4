//! UI preferences on the machine running the window.
//!
//! The daemon's hello carries its own settings. Over SSH its config file is
//! on another machine, so a `ui` object in the local config is laid over
//! them, key by key.

use vstd::prelude::*;

use serde_json::Value;

use crate::host::{first_key, lemma_first_key};
use crate::strs::str_eq;

verus! {

pub open spec fn setting_keys<V>(s: Seq<(Seq<char>, V)>) -> Seq<Seq<char>> {
    s.map_values(|p: (Seq<char>, V)| p.0)
}

/// `settings` with `key` set to `value`: the entry with that key takes the
/// new value in place, or the pair joins the end.
pub open spec fn set_setting<V>(settings: Seq<(Seq<char>, V)>, key: Seq<char>, value: V) -> Seq<(Seq<char>, V)> {
    match first_key(setting_keys(settings), key) {
        Some(i) => settings.update(i, (key, value)),
        None => settings.push((key, value)),
    }
}

/// `base` with every local setting laid over it, in order.
pub open spec fn overlay_spec<V>(base: Seq<(Seq<char>, V)>, local: Seq<(Seq<char>, V)>) -> Seq<(Seq<char>, V)>
    decreases local.len(),
{
    if local.len() == 0 {
        base
    } else {
        let acc = overlay_spec(base, local.drop_last());
        set_setting(acc, local.last().0, local.last().1)
    }
}

pub open spec fn settings_view<V>(v: Seq<(String, V)>) -> Seq<(Seq<char>, V)> {
    v.map_values(|p: (String, V)| (p.0@, p.1))
}

fn set_one<V>(settings: &mut Vec<(String, V)>, key: String, value: V)
    ensures
        settings_view(final(settings)@) == set_setting(settings_view(old(settings)@), key@, value),
{
    let ghost keys = setting_keys(settings_view(settings@));
    proof {
        lemma_first_key(keys, key@);
    }
    let mut i: usize = 0;
    while i < settings.len()
        invariant
            i <= settings@.len(),
            settings@ == old(settings)@,
            keys.len() == settings@.len(),
            keys == setting_keys(settings_view(settings@)),
            forall|j: int| 0 <= j < i ==> keys[j] != key@,
            match first_key(keys, key@) {
                Some(x) => 0 <= x < keys.len() && keys[x] == key@ && forall|j: int|
                    0 <= j < x ==> keys[j] != key@,
                None => forall|j: int| 0 <= j < keys.len() ==> keys[j] != key@,
            },
        decreases settings.len() - i,
    {
        assert(keys[i as int] == settings@[i as int].0@);
        if str_eq(settings[i].0.as_str(), key.as_str()) {
            let ghost before = settings@;
            settings.set(i, (key, value));
            proof {
                assert(settings_view(settings@) =~= settings_view(before).update(i as int, (key@, value)));
            }
            return;
        }
        i += 1;
    }
    let ghost before = settings@;
    settings.push((key, value));
    proof {
        assert(settings_view(settings@) =~= settings_view(before).push((key@, value)));
    }
}

/// Lay the local settings over the daemon's: each local key replaces the
/// daemon's value for it, or is added; keys the local object does not name
/// keep the daemon's value.
pub fn overlay_settings<V>(base: Vec<(String, V)>, local: Vec<(String, V)>) -> (r: Vec<(String, V)>)
    ensures
        settings_view(r@) == overlay_spec(settings_view(base@), settings_view(local@)),
{
    let mut acc = base;
    let mut local = local;
    let ghost lv = settings_view(local@);
    let ghost bv = settings_view(acc@);
    let ghost n = lv.len();
    proof {
        assert(lv.take(0) =~= Seq::<(Seq<char>, V)>::empty());
        assert(lv.skip(0) =~= lv);
    }
    while local.len() > 0
        invariant
            local@.len() <= n,
            n == lv.len(),
            settings_view(local@) == lv.skip(n - local@.len()),
            settings_view(acc@) == overlay_spec(bv, lv.take(n - local@.len())),
        decreases local.len(),
    {
        let ghost before = local@;
        let ghost done = n - local@.len();
        let p = local.remove(0);
        proof {
            assert(settings_view(before)[0] == (p.0@, p.1));
            assert(lv.skip(done)[0] == lv[done]);
            assert(settings_view(local@) =~= settings_view(before).drop_first());
            assert(lv.skip(done + 1) =~= lv.skip(done).drop_first());
            assert(lv.take(done + 1).drop_last() =~= lv.take(done));
            assert(lv.take(done + 1).last() == lv[done]);
        }
        set_one(&mut acc, p.0, p.1);
    }
    proof {
        assert(lv.take(n as int) =~= lv);
    }
    acc
}


#[verifier::external_type_specification]
#[verifier::external_body]
pub struct ExJsonValue(Value);

/// Whether `jsonc_parser` reads `text` as one JSON-with-comments value.
pub uninterp spec fn jsonc_parses(text: Seq<char>) -> bool;

/// `jsonc_parser::parse_to_serde_value` into a `serde_json::Value`, its
/// error as text. The parse succeeds exactly on the texts it reads
/// (`jsonc_parses`); an empty text reads as `null`.
#[verifier::external_body]
fn parse_jsonc(text: &str) -> (r: Result<Value, String>)
    ensures
        r is Ok <==> jsonc_parses(text@),
        text@.len() == 0 ==> r is Ok,
{
    jsonc_parser::parse_to_serde_value::<Value>(text, &jsonc_parser::ParseOptions::default()).map_err(|e| e.to_string())
}

/// The members of the `ui` object of a config value (`Value::get`,
/// `Value::as_object`), in the map's order; `None` when there is no such
/// object. Which members a value holds is not visible to Verus.
#[verifier::external_body]
fn ui_object(config: &Value) -> Option<Vec<(String, Value)>> {
    config.get("ui").and_then(Value::as_object).map(|m| m.iter().map(|(k, v)| (k.clone(), v.clone())).collect())
}

/// The local `ui` settings in a client config text: `Err` with the parse
/// error when the text is not JSON with comments, `Ok(None)` when it holds
/// no `ui` object.
pub fn ui_overlay_from_text(text: &str) -> (r: Result<Option<Vec<(String, Value)>>, String>)
    ensures
        r is Ok <==> jsonc_parses(text@),
{
    match parse_jsonc(text) {
        Ok(config) => Ok(ui_object(&config)),
        Err(e) => Err(e),
    }
}

/// The daemon's `ui` settings with those of a client config text laid over
/// them: unchanged without a local `ui` object, `Err` when the text does not
/// parse.
pub fn overlay_ui_text(base: Vec<(String, Value)>, text: &str) -> (r: Result<Vec<(String, Value)>, String>)
    ensures
        r is Ok <==> jsonc_parses(text@),
        r matches Ok(out) ==> (settings_view(out@) == settings_view(base@) || exists|local: Seq<(Seq<char>, Value)>|
            settings_view(out@) == #[trigger] overlay_spec(settings_view(base@), local)),
{
    match ui_overlay_from_text(text) {
        Ok(Some(local)) => {
            let ghost lv = settings_view(local@);
            let out = overlay_settings(base, local);
            proof {
                assert(settings_view(out@) == overlay_spec(settings_view(base@), lv));
            }
            Ok(out)
        },
        Ok(None) => Ok(base),
        Err(e) => Err(e),
    }
}

} // verus!

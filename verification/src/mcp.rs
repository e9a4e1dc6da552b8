//! Server-list configuration edits: enabling and disabling named servers
//! inside the `mcpServers` object of a configuration document, deciding
//! which servers count as enabled, and the static facts about known
//! servers.

use vstd::prelude::*;

use crate::json::JsonModel;
use crate::json::JsonValue;
use crate::json::ModelEntries;
use crate::json::clone_entries;
use crate::json::entries_of;
use crate::json::entries_view;
use crate::json::find_key;
use crate::json::has_key;
use crate::json::index_of_key;
use crate::json::lemma_index_of_key;
use crate::json::value_of_key;
use crate::strings::str_equal;
use crate::strings::strings_view;

verus! {

broadcast use vstd::std_specs::vec::group_vec_axioms, vstd::seq::group_seq_axioms;

/// The members with the member at key `k` removed; unchanged when absent.
pub open spec fn remove_key_spec(es: ModelEntries, k: Seq<char>) -> ModelEntries {
    if index_of_key(es, k) >= 0 {
        es.remove(index_of_key(es, k))
    } else {
        es
    }
}

/// The members with the member at key `k` set to `v`: replaced in place
/// when present, appended when absent.
pub open spec fn set_key_spec(es: ModelEntries, k: Seq<char>, v: JsonModel) -> ModelEntries {
    if index_of_key(es, k) >= 0 {
        es.update(index_of_key(es, k), (k, v))
    } else {
        es.push((k, v))
    }
}

/// Removes the member at `key`, reporting whether it was there.
pub fn obj_remove(entries: &mut Vec<(String, JsonValue)>, key: &str) -> (r: bool)
    ensures
        entries_view(final(entries)@) == remove_key_spec(entries_view(old(entries)@), key@),
        r == has_key(entries_view(old(entries)@), key@),
{
    let ghost es = entries_view(entries@);
    proof {
        lemma_index_of_key(es, key@);
    }
    match find_key(entries, key) {
        Some(i) => {
            entries.remove(i);
            proof {
                assert(entries_view(entries@) =~= es.remove(i as int));
            }
            true
        },
        None => false,
    }
}

/// Sets the member at `key` to `value`, replacing or appending.
pub fn obj_set(entries: &mut Vec<(String, JsonValue)>, key: &str, value: JsonValue)
    ensures
        entries_view(final(entries)@) == set_key_spec(
            entries_view(old(entries)@),
            key@,
            value@,
        ),
{
    let ghost es = entries_view(entries@);
    let ghost v = value@;
    match find_key(entries, key) {
        Some(i) => {
            let pair = (entries[i].0.clone(), value);
            let ghost old_entries = entries@;
            entries[i] = pair;
            proof {
                lemma_index_of_key(es, key@);
                assert(old_entries[i as int].0@ == key@);
                assert(entries_view(entries@) =~= es.update(i as int, (key@, v)));
            }
        },
        None => {
            let mut k = String::new();
            k.append(key);
            entries.push((k, value));
            proof {
                lemma_index_of_key(es, key@);
                assert(entries_view(entries@) =~= es.push((key@, v)));
            }
        },
    }
}

/// The nested update a server toggle performs: inside the configuration's
/// `mcpServers` object, the named server's own object either loses its
/// `disabled` member (enable) or gets `disabled: true` (disable).  `None`
/// when the configuration does not hold such a server object.
pub open spec fn toggled_server_config(m: JsonModel, name: Seq<char>, enable: bool) -> Option<
    JsonModel,
> {
    if m is Object && has_key(entries_of(m), "mcpServers"@) && value_of_key(
        entries_of(m),
        "mcpServers"@,
    ) is Object && has_key(entries_of(value_of_key(entries_of(m), "mcpServers"@)), name)
        && value_of_key(entries_of(value_of_key(entries_of(m), "mcpServers"@)), name) is Object {
        let es = entries_of(m);
        let servers = entries_of(value_of_key(es, "mcpServers"@));
        let fields = entries_of(value_of_key(servers, name));
        let new_fields = if enable {
            remove_key_spec(fields, "disabled"@)
        } else {
            set_key_spec(fields, "disabled"@, JsonModel::Bool(true))
        };
        let new_servers = servers.update(
            index_of_key(servers, name),
            (name, JsonModel::Object(new_fields)),
        );
        Option::Some(
            JsonModel::Object(
                es.update(
                    index_of_key(es, "mcpServers"@),
                    ("mcpServers"@, JsonModel::Object(new_servers)),
                ),
            ),
        )
    } else {
        Option::None
    }
}

/// The configuration with the named server enabled or disabled, or `None`
/// when no such server object exists.
pub fn toggle_server(config: &JsonValue, name: &str, enable: bool) -> (r: Option<JsonValue>)
    ensures
        match r {
            Some(c) => toggled_server_config(config@, name@, enable) == Option::Some(c@),
            None => toggled_server_config(config@, name@, enable) is None,
        },
{
    let entries = match config {
        JsonValue::Object(entries) => entries,
        _ => {
            return None;
        },
    };
    let ghost es = entries_view(entries@);
    let i = match find_key(entries, "mcpServers") {
        Some(i) => i,
        None => {
            proof {
                lemma_index_of_key(es, "mcpServers"@);
            }
            return None;
        },
    };
    let servers = match &entries[i].1 {
        JsonValue::Object(servers) => servers,
        _ => {
            return None;
        },
    };
    let ghost sv = entries_view(servers@);
    let j = match find_key(servers, name) {
        Some(j) => j,
        None => {
            proof {
                lemma_index_of_key(sv, name@);
            }
            return None;
        },
    };
    let fields = match &servers[j].1 {
        JsonValue::Object(fields) => fields,
        _ => {
            return None;
        },
    };
    let ghost fv = entries_view(fields@);
    let mut new_fields = clone_entries(fields);
    if enable {
        obj_remove(&mut new_fields, "disabled");
    } else {
        obj_set(&mut new_fields, "disabled", JsonValue::Bool(true));
    }
    let mut new_servers = clone_entries(servers);
    let server_pair = (servers[j].0.clone(), JsonValue::Object(new_fields));
    new_servers[j] = server_pair;
    let mut new_entries = clone_entries(entries);
    let top_pair = (entries[i].0.clone(), JsonValue::Object(new_servers));
    new_entries[i] = top_pair;
    let result = JsonValue::Object(new_entries);
    proof {
        lemma_index_of_key(es, "mcpServers"@);
        lemma_index_of_key(sv, name@);
        assert(es[i as int].0 == "mcpServers"@);
        assert(sv[j as int].0 == name@);
        assert(value_of_key(es, "mcpServers"@) == es[i as int].1);
        assert(value_of_key(sv, name@) == sv[j as int].1);
        let new_fields_m = if enable {
            remove_key_spec(fv, "disabled"@)
        } else {
            set_key_spec(fv, "disabled"@, JsonModel::Bool(true))
        };
        assert(entries_view(new_fields@) == new_fields_m);
        assert(entries_view(new_servers@) =~= sv.update(
            j as int,
            (name@, JsonModel::Object(new_fields_m)),
        ));
        assert(entries_view(new_entries@) =~= es.update(
            i as int,
            ("mcpServers"@, JsonModel::Object(entries_view(new_servers@))),
        ));
    }
    Some(result)
}

/// A server object counts as disabled exactly when it holds the member
/// `disabled` with the value `true`.
pub open spec fn server_disabled(server: JsonModel) -> bool {
    server is Object && has_key(entries_of(server), "disabled"@) && value_of_key(
        entries_of(server),
        "disabled"@,
    ) == JsonModel::Bool(true)
}

/// Whether this server object counts as disabled.
pub fn is_server_disabled(server: &JsonValue) -> (r: bool)
    ensures
        r == server_disabled(server@),
{
    let fields = match server {
        JsonValue::Object(fields) => fields,
        _ => {
            return false;
        },
    };
    let ghost fv = entries_view(fields@);
    proof {
        lemma_index_of_key(fv, "disabled"@);
    }
    match find_key(fields, "disabled") {
        Some(i) => {
            match &fields[i].1 {
                JsonValue::Bool(b) => *b,
                _ => false,
            }
        },
        None => false,
    }
}

/// The names of the servers whose disabled state is `want_disabled`, in
/// configuration order.
pub open spec fn partition_names(servers: ModelEntries, want_disabled: bool) -> Seq<Seq<char>>
    decreases servers.len(),
{
    if servers.len() == 0 {
        Seq::empty()
    } else {
        (if server_disabled(servers[0].1) == want_disabled {
            seq![servers[0].0]
        } else {
            Seq::empty()
        }) + partition_names(servers.drop_first(), want_disabled)
    }
}

/// Partitioning one more server appends its name to one side.
pub proof fn lemma_partition_push(
    servers: ModelEntries,
    e: (Seq<char>, JsonModel),
    want_disabled: bool,
)
    ensures
        partition_names(servers.push(e), want_disabled) == partition_names(servers, want_disabled)
            + (if server_disabled(e.1) == want_disabled {
            seq![e.0]
        } else {
            Seq::<Seq<char>>::empty()
        }),
    decreases servers.len(),
{
    if servers.len() == 0 {
        assert(servers.push(e)[0] == e);
        assert(servers =~= Seq::<(Seq<char>, JsonModel)>::empty());
        assert(servers.push(e).drop_first() =~= servers);
        assert(partition_names(servers, want_disabled) == Seq::<Seq<char>>::empty());
        assert(partition_names(servers, want_disabled) + (if server_disabled(e.1)
            == want_disabled {
            seq![e.0]
        } else {
            Seq::<Seq<char>>::empty()
        }) =~= partition_names(servers.push(e), want_disabled));
    } else {
        assert(servers.push(e)[0] == servers[0]);
        assert(servers.push(e).drop_first() =~= servers.drop_first().push(e));
        lemma_partition_push(servers.drop_first(), e, want_disabled);
        assert(partition_names(servers, want_disabled) + (if server_disabled(e.1)
            == want_disabled {
            seq![e.0]
        } else {
            Seq::<Seq<char>>::empty()
        }) =~= partition_names(servers.push(e), want_disabled));
    }
}

/// Splits the `mcpServers` object of a configuration into the names of
/// enabled and of disabled servers, each in configuration order; `None`
/// when the configuration holds no `mcpServers` object.
pub fn partition_servers(config: &JsonValue) -> (r: Option<(Vec<String>, Vec<String>)>)
    ensures
        match r {
            Some(two) => config@ is Object && has_key(entries_of(config@), "mcpServers"@)
                && value_of_key(entries_of(config@), "mcpServers"@) is Object && strings_view(
                two.0@,
            ) == partition_names(
                entries_of(value_of_key(entries_of(config@), "mcpServers"@)),
                false,
            ) && strings_view(two.1@) == partition_names(
                entries_of(value_of_key(entries_of(config@), "mcpServers"@)),
                true,
            ),
            None => !(config@ is Object && has_key(entries_of(config@), "mcpServers"@)
                && value_of_key(entries_of(config@), "mcpServers"@) is Object),
        },
{
    let entries = match config {
        JsonValue::Object(entries) => entries,
        _ => {
            return None;
        },
    };
    let ghost es = entries_view(entries@);
    proof {
        lemma_index_of_key(es, "mcpServers"@);
    }
    let i = match find_key(entries, "mcpServers") {
        Some(i) => i,
        None => {
            return None;
        },
    };
    let servers = match &entries[i].1 {
        JsonValue::Object(servers) => servers,
        _ => {
            return None;
        },
    };
    let ghost sv = entries_view(servers@);
    proof {
        assert(value_of_key(es, "mcpServers"@) == es[i as int].1);
    }
    let mut enabled: Vec<String> = Vec::new();
    let mut disabled: Vec<String> = Vec::new();
    let mut k: usize = 0;
    proof {
        assert(sv.take(0) =~= Seq::<(Seq<char>, JsonModel)>::empty());
        assert(strings_view(enabled@) =~= partition_names(sv.take(0), false));
        assert(strings_view(disabled@) =~= partition_names(sv.take(0), true));
    }
    while k < servers.len()
        invariant
            k <= servers@.len(),
            sv == entries_view(servers@),
            strings_view(enabled@) == partition_names(sv.take(k as int), false),
            strings_view(disabled@) == partition_names(sv.take(k as int), true),
        decreases servers@.len() - k,
    {
        let ghost en0 = strings_view(enabled@);
        let ghost dis0 = strings_view(disabled@);
        let off = is_server_disabled(&servers[k].1);
        let name = servers[k].0.clone();
        if off {
            disabled.push(name);
            proof {
                assert(strings_view(disabled@) =~= dis0.push(sv[k as int].0));
            }
        } else {
            enabled.push(name);
            proof {
                assert(strings_view(enabled@) =~= en0.push(sv[k as int].0));
            }
        }
        proof {
            assert(sv.take(k + 1) =~= sv.take(k as int).push(sv[k as int]));
            lemma_partition_push(sv.take(k as int), sv[k as int], false);
            lemma_partition_push(sv.take(k as int), sv[k as int], true);
            assert(strings_view(enabled@) =~= partition_names(sv.take(k + 1), false));
            assert(strings_view(disabled@) =~= partition_names(sv.take(k + 1), true));
        }
        k += 1;
    }
    proof {
        assert(sv.take(sv.len() as int) =~= sv);
    }
    Some((enabled, disabled))
}

/// The short description shown for a known server name.
pub open spec fn description_of(name: Seq<char>) -> Seq<char> {
    if name == "sequential-thinking"@ {
        "Structured thinking and problem-solving"@
    } else if name == "git"@ {
        "Git operations and repository management"@
    } else if name == "github"@ {
        "GitHub integration (issues, PRs, releases)"@
    } else if name == "context7"@ {
        "Library documentation and code examples"@
    } else if name == "file-search"@ {
        "Fast file search and analysis"@
    } else if name == "serena"@ {
        "Code analysis and semantic search"@
    } else {
        "Custom MCP server"@
    }
}

/// The description for a known server.
pub fn get_server_description(name: &str) -> (r: &'static str)
    ensures
        r@ == description_of(name@),
{
    if str_equal(name, "sequential-thinking") {
        "Structured thinking and problem-solving"
    } else if str_equal(name, "git") {
        "Git operations and repository management"
    } else if str_equal(name, "github") {
        "GitHub integration (issues, PRs, releases)"
    } else if str_equal(name, "context7") {
        "Library documentation and code examples"
    } else if str_equal(name, "file-search") {
        "Fast file search and analysis"
    } else if str_equal(name, "serena") {
        "Code analysis and semantic search"
    } else {
        "Custom MCP server"
    }
}

/// Whether the server needs environment variables before it works.
pub fn needs_env_setup(name: &str) -> (r: bool)
    ensures
        r == (name@ == "github"@),
{
    str_equal(name, "github")
}

/// Whether the server belongs to the recommended workflow.
pub fn is_critical_server(name: &str) -> (r: bool)
    ensures
        r == (name@ == "sequential-thinking"@ || name@ == "context7"@),
{
    str_equal(name, "sequential-thinking") || str_equal(name, "context7")
}

} // verus!

//! Key path templates.
//!
//! A template is a string with the named placeholders `{service}`, `{env}`
//! and `{key}`. Rendering substitutes each placeholder with the value it
//! names; an unknown placeholder name or an unmatched brace is a template
//! error. This is deliberately a fixed substitution over exactly the three
//! known names, not a general templating engine.

use vstd::prelude::*;

use crate::error::Error;
use crate::strutil::{find_char, find_char_in, lemma_find_char, str_eq};

verus! {

/// The rendering of `tpl` with the given service, env and key, or `None` if
/// the template is malformed: a `{` must be followed by one of the three
/// placeholder names and a matching `}`, and a bare `}` is rejected.
pub open spec fn render_spec(
    tpl: Seq<char>,
    service: Seq<char>,
    env: Seq<char>,
    key: Seq<char>,
) -> Option<Seq<char>>
    decreases tpl.len(),
{
    if tpl.len() == 0 {
        Some(Seq::empty())
    } else if tpl[0] == '}' {
        None
    } else if tpl[0] == '{' {
        match find_char(tpl, '}') {
            None => None,
            Some(j) => if j < 1 || j >= tpl.len() {
                None
            } else {
                let name = tpl.subrange(1, j);
                let rest = tpl.subrange(j + 1, tpl.len() as int);
                let subst = if name == "service"@ {
                    Some(service)
                } else if name == "env"@ {
                    Some(env)
                } else if name == "key"@ {
                    Some(key)
                } else {
                    None
                };
                match (subst, render_spec(rest, service, env, key)) {
                    (Some(v), Some(r)) => Some(v + r),
                    _ => None,
                }
            },
        }
    } else {
        match render_spec(tpl.drop_first(), service, env, key) {
            None => None,
            Some(r) => Some(seq![tpl[0]] + r),
        }
    }
}

/// The template ends with the literal segment `/{key}`, so every rendered
/// path is prefix-addressable.
pub open spec fn template_ends_with_key(tpl: Seq<char>) -> bool {
    tpl.len() >= 6 && tpl.subrange(tpl.len() - 6, tpl.len() as int) == "/{key}"@
}

/// Render `tpl` by substituting the three placeholders.
pub fn render(tpl: &str, service: &str, env: &str, key: &str) -> (r: Result<String, Error>)
    ensures
        match r {
            Ok(s) => render_spec(tpl@, service@, env@, key@) == Some(s@),
            Err(e) => render_spec(tpl@, service@, env@, key@) is None && e is Template,
        },
{
    let ghost sv = service@;
    let ghost ev = env@;
    let ghost kv = key@;
    let n = tpl.unicode_len();
    let mut out = String::new();
    let mut i: usize = 0;
    proof {
        assert(tpl@.subrange(0, n as int) =~= tpl@);
        if render_spec(tpl@, sv, ev, kv) is Some {
            let rr = render_spec(tpl@, sv, ev, kv)->Some_0;
            assert(Seq::<char>::empty() + rr =~= rr);
        }
    }
    while i < n
        invariant
            i <= n,
            n == tpl@.len(),
            sv == service@,
            ev == env@,
            kv == key@,
            render_spec(tpl@, sv, ev, kv) == match render_spec(
                tpl@.subrange(i as int, n as int),
                sv,
                ev,
                kv,
            ) {
                None => None::<Seq<char>>,
                Some(r) => Some(out@ + r),
            },
        decreases n - i,
    {
        let ghost rem = tpl@.subrange(i as int, n as int);
        proof {
            assert(rem[0] == tpl@[i as int]);
        }
        let c = tpl.get_char(i);
        if c == '}' {
            return Err(Error::Template(String::from_str("unmatched brace in template")));
        } else if c == '{' {
            let tail = tpl.substring_char(i, n);
            match find_char_in(tail, '}') {
                None => {
                    return Err(Error::Template(String::from_str("unclosed brace in template")));
                },
                Some(j) => {
                    proof {
                        lemma_find_char(tail@, '}');
                        assert(tail@[j as int] == '}');
                        assert(j >= 1);
                    }
                    let name = tail.substring_char(1, j);
                    let subst: &str = if str_eq(name, "service") {
                        service
                    } else if str_eq(name, "env") {
                        env
                    } else if str_eq(name, "key") {
                        key
                    } else {
                        return Err(
                            Error::Template(String::from_str("unknown placeholder in template")),
                        );
                    };
                    proof {
                        let rest = rem.subrange(j + 1, rem.len() as int);
                        assert(rest =~= tpl@.subrange(i + j + 1, n as int));
                        if render_spec(rest, sv, ev, kv) is Some {
                            let rr = render_spec(rest, sv, ev, kv)->Some_0;
                            assert(render_spec(rem, sv, ev, kv) == Some(subst@ + rr));
                            assert(out@ + (subst@ + rr) =~= (out@ + subst@) + rr);
                        }
                    }
                    out.append(subst);
                    i = i + j + 1;
                },
            }
        } else {
            let piece = tpl.substring_char(i, i + 1);
            proof {
                assert(piece@ =~= seq![tpl@[i as int]]);
                assert(rem.drop_first() =~= tpl@.subrange(i + 1, n as int));
                if render_spec(rem.drop_first(), sv, ev, kv) is Some {
                    let rr = render_spec(rem.drop_first(), sv, ev, kv)->Some_0;
                    assert(render_spec(rem, sv, ev, kv) == Some(seq![rem[0]] + rr));
                    assert(out@ + (seq![rem[0]] + rr) =~= (out@ + piece@) + rr);
                }
            }
            out.append(piece);
            i = i + 1;
        }
    }
    proof {
        let rem = tpl@.subrange(i as int, n as int);
        assert(rem.len() == 0);
        assert(render_spec(rem, sv, ev, kv) == Some(Seq::<char>::empty()));
        assert(out@ + Seq::<char>::empty() =~= out@);
    }
    Ok(out)
}

/// The immutable (template, service, env) triple used to render logical
/// keys into remote paths.
pub struct ServiceConfig {
    key_template: String,
    service: String,
    env: String,
}

impl ServiceConfig {
    /// The template string.
    pub closed spec fn template(&self) -> Seq<char> {
        self.key_template@
    }

    /// The service name.
    pub closed spec fn service(&self) -> Seq<char> {
        self.service@
    }

    /// The environment name.
    pub closed spec fn env(&self) -> Seq<char> {
        self.env@
    }

    /// The path a logical key renders to, when the template is well-formed.
    pub open spec fn spec_key(&self, key: Seq<char>) -> Option<Seq<char>> {
        render_spec(self.template(), self.service(), self.env(), key)
    }

    pub fn new(key_template: String, service: String, env: String) -> (r: ServiceConfig)
        ensures
            r.template() == key_template@,
            r.service() == service@,
            r.env() == env@,
    {
        ServiceConfig { key_template, service, env }
    }

    /// Create the full remote key for a logical key.
    pub fn consul_key(&self, key: &str) -> (r: Result<String, Error>)
        ensures
            match r {
                Ok(s) => self.spec_key(key@) == Some(s@),
                Err(e) => self.spec_key(key@) is None && e is Template,
            },
    {
        render(self.key_template.as_str(), self.service.as_str(), self.env.as_str(), key)
    }

    /// A one-line description of this context, for logs.
    pub fn describe(&self) -> (r: String)
        ensures
            r@ == "service '"@ + self.service() + "' with env '"@ + self.env() + "'"@,
    {
        let mut out = String::from_str("service '");
        out.append(self.service.as_str());
        out.append("' with env '");
        out.append(self.env.as_str());
        out.append("'");
        proof {
            assert(out@ =~= "service '"@ + self.service() + "' with env '"@ + self.env()
                + "'"@);
        }
        out
    }
}

} // verus!

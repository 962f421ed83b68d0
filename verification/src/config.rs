//! Configuration data: the application settings with their defaults, the
//! built-in endpoint list, permission status, and update-check version
//! comparison.

use crate::addr::{dec_value, is_digit_char};
use crate::probe::Endpoint;
use crate::text::{split_char_spec, split_on_char};
use vstd::prelude::*;

verus! {

/// The application settings.
pub struct AppConfig {
    pub check_interval: u64,
    pub slow_threshold: u32,
    pub failure_threshold: u32,
    pub test_count: u32,
    pub autostart: bool,
    pub endpoints: Vec<Endpoint>,
}

/// Default seconds between health checks.
pub fn default_check_interval() -> (r: u64)
    ensures
        r == 120,
{
    120
}

/// Default severe-slowdown threshold, in percent over baseline.
pub fn default_slow_threshold() -> (r: u32)
    ensures
        r == 150,
{
    150
}

/// Default consecutive failures before a switch is considered.
pub fn default_failure_threshold() -> (r: u32)
    ensures
        r == 5,
{
    5
}

/// Default probe rounds per address.
pub fn default_test_count() -> (r: u32)
    ensures
        r == 3,
{
    3
}

/// Autostart is off by default.
pub fn default_autostart() -> (r: bool)
    ensures
        r == false,
{
    false
}

fn ep(name: &str, url: &str, domain: &str) -> (r: Endpoint)
    ensures
        r.name@ == name@,
        r.url@ == url@,
        r.domain@ == domain@,
        r.enabled,
{
    Endpoint { name: name.to_owned(), url: url.to_owned(), domain: domain.to_owned(), enabled: true }
}

/// The built-in endpoint list.
pub fn default_endpoints() -> (r: Vec<Endpoint>)
    ensures
        r.len() == 27,
        r@[0].name@ == "anyrouter"@,
        r@[0].domain@ == "betterclau.de"@,
        forall|i: int| 0 <= i < r@.len() ==> (#[trigger] r@[i]).enabled,
{
    let mut v: Vec<Endpoint> = Vec::new();
    v.push(ep("anyrouter", "https://betterclau.de/", "betterclau.de"));
    v.push(
        ep(
            "chriswilson 6655 translate",
            "https://translate-api.6655.pp.ua",
            "translate-api.6655.pp.ua",
        ),
    );
    v.push(ep("jun9 baqi", "https://ai.121628.xyz", "ai.121628.xyz"));
    v.push(ep("jiujiubaba jiujiu", "https://api.usegemini.xyz/", "api.usegemini.xyz"));
    v.push(ep("cxy26 laoyou", "https://lyclaude.site", "lyclaude.site"));
    v.push(ep("panjinxin404 manbo", "https://mb666.zeabur.app/", "mb666.zeabur.app"));
    v.push(ep("helsa moyu", "https://clove.cc.cd/", "clove.cc.cd"));
    v.push(ep("user792 muyuan", "https://newapi.linuxdo.edu.rs/", "newapi.linuxdo.edu.rs"));
    v.push(ep("Foward lightllm", "https://lightllm.online/", "lightllm.online"));
    v.push(ep("ZeroLiya xiaodai", "https://api.daiju.live/", "api.daiju.live"));
    v.push(ep("xiaolajiao", "https://yyds.215.im/", "yyds.215.im"));
    v.push(ep("xinchen translate", "https://api.lianwusuoai.top", "api.lianwusuoai.top"));
    v.push(ep("sixsixsix cloud", "https://cloudapi.wdyu.eu.cc/", "cloudapi.wdyu.eu.cc"));
    v.push(
        ep("Kingo API share", "https://new-api-bxhm.onrender.com", "new-api-bxhm.onrender.com"),
    );
    v.push(ep("ByteBender Elysiver", "https://elysiver.h-e.top", "elysiver.h-e.top"));
    v.push(ep("unsafe Embedding", "https://router.tumuer.me/", "router.tumuer.me"));
    v.push(ep("ius GGBOOM", "https://ai.qaq.al/", "ai.qaq.al"));
    v.push(ep("yingjiang HotaruAPI", "https://api.hotaruapi.top/", "api.hotaruapi.top"));
    v.push(ep("zj.z ibsgss", "https://codex.ibsgss.uk/", "codex.ibsgss.uk"));
    v.push(ep("laohui ICAT", "https://icat.pp.ua", "icat.pp.ua"));
    v.push(ep("kkkyyx KFC API", "https://kfc-api.sxxe.net", "kfc-api.sxxe.net"));
    v.push(ep("Simon_z Neb", "https://ai.zzhdsgsss.xyz", "ai.zzhdsgsss.xyz"));
    v.push(ep("123nhh nhh", "https://new.123nhh.xyz/", "new.123nhh.xyz"));
    v.push(ep("WONG", "https://wzw.pp.ua", "wzw.pp.ua"));
    v.push(ep("wuxiansheng WOW", "https://linuxdoapi.223384.xyz/", "linuxdoapi.223384.xyz"));
    v.push(ep("yuexiaduzou YX", "https://api.dx001.ggff.net", "api.dx001.ggff.net"));
    v.push(ep("qq1244 zeabur", "https://openai.api-test.us.ci/", "openai.api-test.us.ci"));
    v
}

impl Default for AppConfig {
    /// The settings before any configuration is saved.
    fn default() -> (r: AppConfig)
        ensures
            r.check_interval == 120,
            r.slow_threshold == 150,
            r.failure_threshold == 5,
            r.test_count == 3,
            r.autostart == false,
            r.endpoints.len() == 27,
            r.endpoints@[0].name@ == "anyrouter"@,
            forall|i: int| 0 <= i < r.endpoints@.len() ==> (#[trigger] r.endpoints@[i]).enabled,
    {
        AppConfig {
            check_interval: default_check_interval(),
            slow_threshold: default_slow_threshold(),
            failure_threshold: default_failure_threshold(),
            test_count: default_test_count(),
            autostart: default_autostart(),
            endpoints: default_endpoints(),
        }
    }
}

/// Whether the hosts file may currently be written, and through which path.
pub struct PermissionStatus {
    pub has_permission: bool,
    pub is_using_service: bool,
}

/// What an update check found.
pub struct UpdateInfo {
    pub current_version: String,
    pub latest_version: String,
    pub has_update: bool,
    pub release_url: String,
    pub release_notes: String,
    pub published_at: String,
}

/// A dot-separated piece that reads as a number.
pub open spec fn numeric_piece(p: Seq<char>) -> bool {
    p.len() > 0 && (forall|k: int| 0 <= k < p.len() ==> is_digit_char(#[trigger] p[k]))
        && dec_value(p) <= u32::MAX
}

/// The numeric parts of a version string, in order; pieces that do not read
/// as numbers are skipped.
pub open spec fn version_parts(ps: Seq<Seq<char>>) -> Seq<int>
    decreases ps.len(),
{
    if ps.len() == 0 {
        Seq::empty()
    } else {
        version_parts(ps.drop_last()) + (if numeric_piece(ps.last()) {
            seq![dec_value(ps.last())]
        } else {
            Seq::<int>::empty()
        })
    }
}

/// Versions compared part by part, missing parts reading as zero.
pub open spec fn version_gt(a: Seq<int>, b: Seq<int>) -> bool
    decreases a.len() + b.len(),
{
    if a.len() == 0 && b.len() == 0 {
        false
    } else {
        let l: int = if a.len() > 0 {
            a[0]
        } else {
            0
        };
        let c: int = if b.len() > 0 {
            b[0]
        } else {
            0
        };
        if l > c {
            true
        } else if l < c {
            false
        } else {
            version_gt(
                if a.len() > 0 {
                    a.drop_first()
                } else {
                    a
                },
                if b.len() > 0 {
                    b.drop_first()
                } else {
                    b
                },
            )
        }
    }
}

proof fn lemma_dec_value_nonneg(s: Seq<char>)
    requires
        forall|k: int| 0 <= k < s.len() ==> is_digit_char(#[trigger] s[k]),
    ensures
        dec_value(s) >= 0,
    decreases s.len(),
{
    if s.len() > 0 {
        let t = s.drop_last();
        assert(forall|k: int| 0 <= k < t.len() ==> t[k] == s[k]);
        lemma_dec_value_nonneg(t);
    }
}

/// Parses one dot-separated piece as a number, if it is one.
fn parse_piece(p: &str) -> (r: Option<u32>)
    ensures
        numeric_piece(p@) ==> (r matches Some(v) && v == dec_value(p@)),
        !numeric_piece(p@) ==> r is None,
{
    let len = p.unicode_len();
    if len == 0 {
        return None;
    }
    let mut i: usize = 0;
    let mut value: u64 = 0;
    let big: u64 = 0xffff_ffff;
    while i < len
        invariant
            0 <= i <= len,
            len == p@.len(),
            big == 0xffff_ffff,
            forall|k: int| 0 <= k < i ==> is_digit_char(#[trigger] p@[k]),
            value <= big ==> value == dec_value(p@.subrange(0, i as int)),
            value > big ==> (dec_value(p@.subrange(0, i as int)) > big && value == big + 1),
        decreases len - i,
    {
        let c = p.get_char(i);
        let u = c as u32;
        if !(48 <= u && u <= 57) {
            return None;
        }
        proof {
            assert(p@.subrange(0, i as int + 1).drop_last() =~= p@.subrange(0, i as int));
            assert(p@.subrange(0, i as int + 1).last() == p@[i as int]);
            lemma_dec_value_nonneg(p@.subrange(0, i as int));
        }
        let d = (u - 48) as u64;
        if value <= big {
            let next = value * 10 + d;
            if next > big {
                value = big + 1;
            } else {
                value = next;
            }
        } else {
            proof {
                assert(dec_value(p@.subrange(0, i as int + 1)) > big);
            }
        }
        i = i + 1;
    }
    proof {
        assert(p@.subrange(0, len as int) =~= p@);
    }
    if value > big {
        return None;
    }
    Some(value as u32)
}

/// The numeric parts of a version string.
pub fn parse_version(s: &str) -> (r: Vec<u32>)
    ensures
        r@.map_values(|v: u32| v as int) == version_parts(split_char_spec(s@, '.')),
{
    let pieces = split_on_char(s, '.');
    let ghost gps = pieces.deep_view();
    let mut out: Vec<u32> = Vec::new();
    let n = pieces.len();
    let mut k: usize = 0;
    proof {
        assert(gps.take(0) =~= Seq::<Seq<char>>::empty());
        assert(out@.map_values(|v: u32| v as int) =~= version_parts(gps.take(0)));
    }
    while k < n
        invariant
            0 <= k <= n,
            n == pieces.len(),
            gps == pieces.deep_view(),
            gps == split_char_spec(s@, '.'),
            gps.len() == n,
            out@.map_values(|v: u32| v as int) == version_parts(gps.take(k as int)),
        decreases n - k,
    {
        proof {
            assert(pieces@[k as int]@ == gps[k as int]);
            assert(gps.take(k as int + 1).drop_last() =~= gps.take(k as int));
            assert(gps.take(k as int + 1).last() == gps[k as int]);
        }
        let ghost out0 = out@;
        match parse_piece(pieces[k].as_str()) {
            Some(v) => {
                out.push(v);
                proof {
                    assert(out@.map_values(|v2: u32| v2 as int) =~= out0.map_values(
                        |v2: u32| v2 as int,
                    ).push(v as int));
                    assert(out@.map_values(|v2: u32| v2 as int) =~= version_parts(
                        gps.take(k as int + 1),
                    ));
                }
            },
            None => {
                proof {
                    assert(version_parts(gps.take(k as int + 1)) =~= version_parts(
                        gps.take(k as int),
                    ));
                }
            },
        }
        k = k + 1;
    }
    proof {
        assert(gps.take(n as int) =~= gps);
    }
    out
}

/// Whether `latest` names a strictly newer version than `current`.
pub fn compare_versions(latest: &str, current: &str) -> (r: bool)
    ensures
        r == version_gt(
            version_parts(split_char_spec(latest@, '.')),
            version_parts(split_char_spec(current@, '.')),
        ),
{
    let a = parse_version(latest);
    let b = parse_version(current);
    let ghost ga = a@.map_values(|v: u32| v as int);
    let ghost gb = b@.map_values(|v: u32| v as int);
    let an = a.len();
    let bn = b.len();
    let n = if an > bn {
        an
    } else {
        bn
    };
    let mut i: usize = 0;
    proof {
        assert(ga.skip(0) =~= ga);
        assert(gb.skip(0) =~= gb);
    }
    while i < n
        invariant
            0 <= i <= n,
            an == a.len(),
            bn == b.len(),
            n == (if an > bn {
                an
            } else {
                bn
            }),
            ga == a@.map_values(|v: u32| v as int),
            gb == b@.map_values(|v: u32| v as int),
            ga == version_parts(split_char_spec(latest@, '.')),
            gb == version_parts(split_char_spec(current@, '.')),
            ga.len() == an,
            gb.len() == bn,
            version_gt(ga, gb) == version_gt(
                ga.skip(if i <= an {
                    i as int
                } else {
                    an as int
                }),
                gb.skip(if i <= bn {
                    i as int
                } else {
                    bn as int
                }),
            ),
        decreases n - i,
    {
        let ghost ia: int = if i <= an {
            i as int
        } else {
            an as int
        };
        let ghost ib: int = if i <= bn {
            i as int
        } else {
            bn as int
        };
        let ghost sa = ga.skip(ia);
        let ghost sb = gb.skip(ib);
        let l: u32 = if i < an {
            a[i]
        } else {
            0
        };
        let c: u32 = if i < bn {
            b[i]
        } else {
            0
        };
        proof {
            if i < an {
                assert(sa[0] == ga[i as int]);
                assert(ga[i as int] == a@[i as int] as int);
            } else {
                assert(sa.len() == 0);
            }
            if i < bn {
                assert(sb[0] == gb[i as int]);
                assert(gb[i as int] == b@[i as int] as int);
            } else {
                assert(sb.len() == 0);
            }
            assert(!(sa.len() == 0 && sb.len() == 0));
            assert((if sa.len() > 0 {
                sa[0]
            } else {
                0int
            }) == l as int);
            assert((if sb.len() > 0 {
                sb[0]
            } else {
                0int
            }) == c as int);
        }
        if l > c {
            proof {
                assert(version_gt(sa, sb));
            }
            return true;
        }
        if l < c {
            proof {
                assert(!version_gt(sa, sb));
            }
            return false;
        }
        proof {
            let ia2: int = if i + 1 <= an {
                i as int + 1
            } else {
                an as int
            };
            let ib2: int = if i + 1 <= bn {
                i as int + 1
            } else {
                bn as int
            };
            if sa.len() > 0 {
                assert(sa.drop_first() =~= ga.skip(ia + 1));
                assert(ia2 == ia + 1);
            } else {
                assert(ia2 == ia);
            }
            if sb.len() > 0 {
                assert(sb.drop_first() =~= gb.skip(ib + 1));
                assert(ib2 == ib + 1);
            } else {
                assert(ib2 == ib);
            }
            assert(version_gt(sa, sb) == version_gt(ga.skip(ia2), gb.skip(ib2)));
        }
        i = i + 1;
    }
    proof {
        if an <= n {
            assert(ga.skip(if n <= an {
                n as int
            } else {
                an as int
            }).len() == 0);
        }
        if bn <= n {
            assert(gb.skip(if n <= bn {
                n as int
            } else {
                bn as int
            }).len() == 0);
        }
    }
    false
}

/// The path of the system hosts file on this platform family.
pub fn get_hosts_path() -> (r: String)
    ensures
        r@ == "/etc/hosts"@,
{
    "/etc/hosts".to_owned()
}

} // verus!

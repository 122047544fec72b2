//! What tagging a host as an update URL promises: reading the tag back
//! gives the host.

use vstd::prelude::*;
use crate::text::{all_ascii, ascii_lower_seq, lowercase, starts_with, trim};
use crate::xupdater::{default_host, normalized_host, tagged_host};

verus! {

/// Reading back a tagged host: for every host whose normalised text is
/// ASCII (as the URL parser writes URLs), the tag reads back as the
/// normalised host exactly when normalising that text again (the default
/// host when it is blank) gives it back.
pub proof fn law_tagged_host_read_back(host: Seq<char>)
    requires
        all_ascii(normalized_host(Some(host))),
    ensures
        ({
            let n = normalized_host(Some(host));
            &&& tagged_host("x-updater:"@ + n) == Some(
                if trim(n).len() == 0 {
                    default_host()
                } else {
                    normalized_host(Some(trim(n)))
                },
            )
            &&& (tagged_host("x-updater:"@ + n) == Some(n) <==> n == (if trim(n).len() == 0 {
                default_host()
            } else {
                normalized_host(Some(trim(n)))
            }))
        }),
{
    let n = normalized_host(Some(host));
    let p = "x-updater:"@;
    let u = p + n;
    reveal_strlit("x-updater:");
    reveal(lowercase);
    assert(all_ascii(p));
    assert(all_ascii(u)) by {
        assert forall|i: int| 0 <= i < u.len() implies ((#[trigger] u[i]) as u32) < 128 by {
            if i < p.len() {
                assert(u[i] == p[i]);
            } else {
                assert(u[i] == n[i - p.len()]);
            }
        }
    }
    assert(lowercase(p) =~= p);
    assert(ascii_lower_seq(u).subrange(0, p.len() as int) =~= p);
    assert(starts_with(lowercase(u), lowercase(p)));
    assert(u.subrange(10, u.len() as int) =~= n);
}

/// Tagging a host and reading the tag back gives the normalised host,
/// whenever that host is non-empty ASCII text without white space at its
/// ends and normalising it again leaves it as it is.
pub proof fn law_tagged_host_round_trip(host: Seq<char>)
    requires
        normalized_host(Some(host)).len() > 0,
        all_ascii(normalized_host(Some(host))),
        trim(normalized_host(Some(host))) == normalized_host(Some(host)),
        normalized_host(Some(normalized_host(Some(host)))) == normalized_host(Some(host)),
    ensures
        tagged_host("x-updater:"@ + normalized_host(Some(host))) == Some(normalized_host(Some(host))),
{
    law_tagged_host_read_back(host);
}

} // verus!

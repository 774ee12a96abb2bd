//! The announce request sent to a tracker.

use vstd::prelude::*;
use vstd::string::StringExecFns;

verus! {

/// The announce URL: the tracker's URL with the info hash and this client's
/// fixed parameters as its query.
pub fn announce_request_url(url: &str, hash_info: &str) -> (res: String)
    ensures
        res@ == url@ + "?info_hash="@ + hash_info@ + "&uploaded=0"@ + "&downloaded=0"@
            + "&left=0"@ + "&port=6881"@ + "&peer_id=Rbit-Sn5J5VGM5CkFccE"@,
{
    let mut url_with_params = String::new();
    url_with_params.append(url);
    url_with_params.append("?info_hash=");
    url_with_params.append(hash_info);
    url_with_params.append("&uploaded=0");
    url_with_params.append("&downloaded=0");
    url_with_params.append("&left=0");
    url_with_params.append("&port=6881");
    url_with_params.append("&peer_id=Rbit-Sn5J5VGM5CkFccE");
    assert(url_with_params@ =~= url@ + "?info_hash="@ + hash_info@ + "&uploaded=0"@
        + "&downloaded=0"@ + "&left=0"@ + "&port=6881"@ + "&peer_id=Rbit-Sn5J5VGM5CkFccE"@);
    url_with_params
}

} // verus!

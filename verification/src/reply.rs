//! The subset of the station's length-delimited HTTP reply that this client
//! reads: the status with the station identity and its log text, and the
//! live readings with their module list. Unknown fields are skipped; every
//! parser mirrors a spec function of the raw bytes, field for field.

use vstd::prelude::*;

use crate::codec::bytes_field_at;
use crate::codec::parse_bytes_field;
use crate::codec::parse_varint;
use crate::codec::varint_at;

verus! {

/// The station identity inside a status reply.
#[derive(Debug)]
pub struct ReplyIdentity {
    pub device: Vec<u8>,
    pub device_id: Vec<u8>,
}

#[verifier::ext_equal]
pub struct IdentityV {
    pub device: Seq<u8>,
    pub device_id: Seq<u8>,
}

impl View for ReplyIdentity {
    type V = IdentityV;

    open spec fn view(&self) -> IdentityV {
        IdentityV { device: self.device@, device_id: self.device_id@ }
    }
}

/// The status part of a reply: the identity and the station's log text.
#[derive(Debug)]
pub struct StatusReply {
    pub identity: Option<ReplyIdentity>,
    pub logs: Vec<u8>,
}

#[verifier::ext_equal]
pub struct StatusV {
    pub identity: Option<IdentityV>,
    pub logs: Seq<u8>,
}

impl View for StatusReply {
    type V = StatusV;

    open spec fn view(&self) -> StatusV {
        StatusV {
            identity: match self.identity {
                Some(ref i) => Some(i@),
                None => None,
            },
            logs: self.logs@,
        }
    }
}

/// One module mentioned in a live readings set.
#[derive(Debug)]
pub struct ModuleReading {
    pub position: u64,
}

/// One set of live readings: the modules it reports.
#[derive(Debug)]
pub struct LiveReadings {
    pub modules: Vec<ModuleReading>,
}

#[verifier::ext_equal]
pub struct LiveV {
    pub modules: Seq<u64>,
}

impl View for LiveReadings {
    type V = LiveV;

    open spec fn view(&self) -> LiveV {
        LiveV { modules: Seq::new(self.modules@.len(), |i: int| self.modules@[i].position) }
    }
}

/// The reply subset this client reads.
#[derive(Debug)]
pub struct HttpReply {
    pub reply_type: u64,
    pub status: Option<StatusReply>,
    pub live_readings: Vec<LiveReadings>,
}

#[verifier::ext_equal]
pub struct ReplyV {
    pub reply_type: u64,
    pub status: Option<StatusV>,
    pub live_readings: Seq<LiveV>,
}

impl View for HttpReply {
    type V = ReplyV;

    open spec fn view(&self) -> ReplyV {
        ReplyV {
            reply_type: self.reply_type,
            status: match self.status {
                Some(ref s) => Some(s@),
                None => None,
            },
            live_readings: Seq::new(self.live_readings@.len(), |i: int| self.live_readings@[i]@),
        }
    }
}

// ---------------------------------------------------------------------------
// Field walkers. Each carries fuel, one unit per field parsed; a region of
// `n` bytes never holds more than `n` fields.
// ---------------------------------------------------------------------------

/// The identity message: device name under tag one, identity bytes under
/// tag two.
pub open spec fn identity_at(bytes: Seq<u8>, pos: int, acc: IdentityV, fuel: nat) -> Option<
    IdentityV,
>
    decreases fuel,
{
    if pos == bytes.len() {
        Some(acc)
    } else if fuel == 0 {
        None
    } else {
        match varint_at(bytes, pos, 0, 0) {
            None => None,
            Some((tag, p2)) => {
                let wire = tag % 8;
                if wire == 2 {
                    match bytes_field_at(bytes, p2) {
                        None => None,
                        Some((payload, p3)) => if tag / 8 == 1 {
                            identity_at(
                                bytes,
                                p3,
                                IdentityV { device: payload, ..acc },
                                (fuel - 1) as nat,
                            )
                        } else if tag / 8 == 2 {
                            identity_at(
                                bytes,
                                p3,
                                IdentityV { device_id: payload, ..acc },
                                (fuel - 1) as nat,
                            )
                        } else {
                            identity_at(bytes, p3, acc, (fuel - 1) as nat)
                        },
                    }
                } else if wire == 0 {
                    match varint_at(bytes, p2, 0, 0) {
                        None => None,
                        Some((_v, p3)) => identity_at(bytes, p3, acc, (fuel - 1) as nat),
                    }
                } else {
                    None
                }
            },
        }
    }
}

fn parse_identity(bytes: &[u8], pos: usize, acc: ReplyIdentity, fuel: usize) -> (r: Option<
    ReplyIdentity,
>)
    ensures
        match r {
            Some(v) => identity_at(bytes@, pos as int, acc@, fuel as nat) == Some(v@),
            None => identity_at(bytes@, pos as int, acc@, fuel as nat) is None,
        },
    decreases fuel,
{
    if pos == bytes.len() {
        return Some(acc);
    }
    if fuel == 0 {
        return None;
    }
    let (tag, p2) = match parse_varint(bytes, pos) {
        Some(r) => r,
        None => {
            return None;
        },
    };
    let wire = tag % 8;
    if wire == 2 {
        let (payload, p3) = match parse_bytes_field(bytes, p2) {
            Some(r) => r,
            None => {
                return None;
            },
        };
        if tag / 8 == 1 {
            let acc2 = ReplyIdentity { device: payload, ..acc };
            proof {
                assert(acc2@ =~= (IdentityV { device: payload@, ..acc@ }));
            }
            parse_identity(bytes, p3, acc2, fuel - 1)
        } else if tag / 8 == 2 {
            let acc2 = ReplyIdentity { device_id: payload, ..acc };
            proof {
                assert(acc2@ =~= (IdentityV { device_id: payload@, ..acc@ }));
            }
            parse_identity(bytes, p3, acc2, fuel - 1)
        } else {
            parse_identity(bytes, p3, acc, fuel - 1)
        }
    } else if wire == 0 {
        let (_v, p3) = match parse_varint(bytes, p2) {
            Some(r) => r,
            None => {
                return None;
            },
        };
        parse_identity(bytes, p3, acc, fuel - 1)
    } else {
        None
    }
}

/// The status message: the identity under tag one, the log text under tag
/// two.
pub open spec fn status_at(bytes: Seq<u8>, pos: int, acc: StatusV, fuel: nat) -> Option<StatusV>
    decreases fuel,
{
    if pos == bytes.len() {
        Some(acc)
    } else if fuel == 0 {
        None
    } else {
        match varint_at(bytes, pos, 0, 0) {
            None => None,
            Some((tag, p2)) => {
                let wire = tag % 8;
                if wire == 2 {
                    match bytes_field_at(bytes, p2) {
                        None => None,
                        Some((payload, p3)) => if tag / 8 == 1 {
                            match identity_at(
                                payload,
                                0,
                                IdentityV { device: Seq::empty(), device_id: Seq::empty() },
                                payload.len(),
                            ) {
                                None => None,
                                Some(idv) => status_at(
                                    bytes,
                                    p3,
                                    StatusV { identity: Some(idv), ..acc },
                                    (fuel - 1) as nat,
                                ),
                            }
                        } else if tag / 8 == 2 {
                            status_at(
                                bytes,
                                p3,
                                StatusV { logs: payload, ..acc },
                                (fuel - 1) as nat,
                            )
                        } else {
                            status_at(bytes, p3, acc, (fuel - 1) as nat)
                        },
                    }
                } else if wire == 0 {
                    match varint_at(bytes, p2, 0, 0) {
                        None => None,
                        Some((_v, p3)) => status_at(bytes, p3, acc, (fuel - 1) as nat),
                    }
                } else {
                    None
                }
            },
        }
    }
}

fn parse_status(bytes: &[u8], pos: usize, acc: StatusReply, fuel: usize) -> (r: Option<StatusReply>)
    ensures
        match r {
            Some(v) => status_at(bytes@, pos as int, acc@, fuel as nat) == Some(v@),
            None => status_at(bytes@, pos as int, acc@, fuel as nat) is None,
        },
    decreases fuel,
{
    if pos == bytes.len() {
        return Some(acc);
    }
    if fuel == 0 {
        return None;
    }
    let (tag, p2) = match parse_varint(bytes, pos) {
        Some(r) => r,
        None => {
            return None;
        },
    };
    let wire = tag % 8;
    if wire == 2 {
        let (payload, p3) = match parse_bytes_field(bytes, p2) {
            Some(r) => r,
            None => {
                return None;
            },
        };
        if tag / 8 == 1 {
            let flen = payload.len();
            let idv = match parse_identity(
                payload.as_slice(),
                0,
                ReplyIdentity { device: Vec::new(), device_id: Vec::new() },
                flen,
            ) {
                Some(idv) => idv,
                None => {
                    return None;
                },
            };
            let acc2 = StatusReply { identity: Some(idv), ..acc };
            proof {
                assert(acc2@ =~= (StatusV { identity: Some(idv@), ..acc@ }));
            }
            parse_status(bytes, p3, acc2, fuel - 1)
        } else if tag / 8 == 2 {
            let acc2 = StatusReply { logs: payload, ..acc };
            proof {
                assert(acc2@ =~= (StatusV { logs: payload@, ..acc@ }));
            }
            parse_status(bytes, p3, acc2, fuel - 1)
        } else {
            parse_status(bytes, p3, acc, fuel - 1)
        }
    } else if wire == 0 {
        let (_v, p3) = match parse_varint(bytes, p2) {
            Some(r) => r,
            None => {
                return None;
            },
        };
        parse_status(bytes, p3, acc, fuel - 1)
    } else {
        None
    }
}

/// One module message: its position under tag one.
pub open spec fn module_at(bytes: Seq<u8>, pos: int, acc: u64, fuel: nat) -> Option<u64>
    decreases fuel,
{
    if pos == bytes.len() {
        Some(acc)
    } else if fuel == 0 {
        None
    } else {
        match varint_at(bytes, pos, 0, 0) {
            None => None,
            Some((tag, p2)) => {
                let wire = tag % 8;
                if wire == 0 {
                    match varint_at(bytes, p2, 0, 0) {
                        None => None,
                        Some((v, p3)) => if tag / 8 == 1 {
                            module_at(bytes, p3, v, (fuel - 1) as nat)
                        } else {
                            module_at(bytes, p3, acc, (fuel - 1) as nat)
                        },
                    }
                } else if wire == 2 {
                    match bytes_field_at(bytes, p2) {
                        None => None,
                        Some((_payload, p3)) => module_at(bytes, p3, acc, (fuel - 1) as nat),
                    }
                } else {
                    None
                }
            },
        }
    }
}

fn parse_module(bytes: &[u8], pos: usize, acc: u64, fuel: usize) -> (r: Option<u64>)
    ensures
        match r {
            Some(v) => module_at(bytes@, pos as int, acc, fuel as nat) == Some(v),
            None => module_at(bytes@, pos as int, acc, fuel as nat) is None,
        },
    decreases fuel,
{
    if pos == bytes.len() {
        return Some(acc);
    }
    if fuel == 0 {
        return None;
    }
    let (tag, p2) = match parse_varint(bytes, pos) {
        Some(r) => r,
        None => {
            return None;
        },
    };
    let wire = tag % 8;
    if wire == 0 {
        let (v, p3) = match parse_varint(bytes, p2) {
            Some(r) => r,
            None => {
                return None;
            },
        };
        if tag / 8 == 1 {
            parse_module(bytes, p3, v, fuel - 1)
        } else {
            parse_module(bytes, p3, acc, fuel - 1)
        }
    } else if wire == 2 {
        let (_payload, p3) = match parse_bytes_field(bytes, p2) {
            Some(r) => r,
            None => {
                return None;
            },
        };
        parse_module(bytes, p3, acc, fuel - 1)
    } else {
        None
    }
}

/// One live readings message: its modules under tag one, in order.
pub open spec fn live_at(bytes: Seq<u8>, pos: int, acc: LiveV, fuel: nat) -> Option<LiveV>
    decreases fuel,
{
    if pos == bytes.len() {
        Some(acc)
    } else if fuel == 0 {
        None
    } else {
        match varint_at(bytes, pos, 0, 0) {
            None => None,
            Some((tag, p2)) => {
                let wire = tag % 8;
                if wire == 2 {
                    match bytes_field_at(bytes, p2) {
                        None => None,
                        Some((payload, p3)) => if tag / 8 == 1 {
                            match module_at(payload, 0, 0, payload.len()) {
                                None => None,
                                Some(position) => live_at(
                                    bytes,
                                    p3,
                                    LiveV { modules: acc.modules.push(position) },
                                    (fuel - 1) as nat,
                                ),
                            }
                        } else {
                            live_at(bytes, p3, acc, (fuel - 1) as nat)
                        },
                    }
                } else if wire == 0 {
                    match varint_at(bytes, p2, 0, 0) {
                        None => None,
                        Some((_v, p3)) => live_at(bytes, p3, acc, (fuel - 1) as nat),
                    }
                } else {
                    None
                }
            },
        }
    }
}

fn parse_live(bytes: &[u8], pos: usize, acc: LiveReadings, fuel: usize) -> (r: Option<LiveReadings>)
    ensures
        match r {
            Some(v) => live_at(bytes@, pos as int, acc@, fuel as nat) == Some(v@),
            None => live_at(bytes@, pos as int, acc@, fuel as nat) is None,
        },
    decreases fuel,
{
    if pos == bytes.len() {
        return Some(acc);
    }
    if fuel == 0 {
        return None;
    }
    let (tag, p2) = match parse_varint(bytes, pos) {
        Some(r) => r,
        None => {
            return None;
        },
    };
    let wire = tag % 8;
    if wire == 2 {
        let (payload, p3) = match parse_bytes_field(bytes, p2) {
            Some(r) => r,
            None => {
                return None;
            },
        };
        if tag / 8 == 1 {
            let flen = payload.len();
            let position = match parse_module(payload.as_slice(), 0, 0, flen) {
                Some(p) => p,
                None => {
                    return None;
                },
            };
            let ghost pre = acc@;
            let mut acc2 = acc;
            acc2.modules.push(ModuleReading { position });
            proof {
                assert(acc2@.modules =~= pre.modules.push(position));
                assert(acc2@ =~= (LiveV { modules: pre.modules.push(position) }));
            }
            parse_live(bytes, p3, acc2, fuel - 1)
        } else {
            parse_live(bytes, p3, acc, fuel - 1)
        }
    } else if wire == 0 {
        let (_v, p3) = match parse_varint(bytes, p2) {
            Some(r) => r,
            None => {
                return None;
            },
        };
        parse_live(bytes, p3, acc, fuel - 1)
    } else {
        None
    }
}

/// The reply message: its type under tag one, the status under tag two, the
/// live readings sets under tag three, in order.
pub open spec fn reply_at(bytes: Seq<u8>, pos: int, acc: ReplyV, fuel: nat) -> Option<ReplyV>
    decreases fuel,
{
    if pos == bytes.len() {
        Some(acc)
    } else if fuel == 0 {
        None
    } else {
        match varint_at(bytes, pos, 0, 0) {
            None => None,
            Some((tag, p2)) => {
                let wire = tag % 8;
                if wire == 0 {
                    match varint_at(bytes, p2, 0, 0) {
                        None => None,
                        Some((v, p3)) => if tag / 8 == 1 {
                            reply_at(bytes, p3, ReplyV { reply_type: v, ..acc }, (fuel - 1) as nat)
                        } else {
                            reply_at(bytes, p3, acc, (fuel - 1) as nat)
                        },
                    }
                } else if wire == 2 {
                    match bytes_field_at(bytes, p2) {
                        None => None,
                        Some((payload, p3)) => if tag / 8 == 2 {
                            match status_at(
                                payload,
                                0,
                                StatusV { identity: None, logs: Seq::empty() },
                                payload.len(),
                            ) {
                                None => None,
                                Some(st) => reply_at(
                                    bytes,
                                    p3,
                                    ReplyV { status: Some(st), ..acc },
                                    (fuel - 1) as nat,
                                ),
                            }
                        } else if tag / 8 == 3 {
                            match live_at(payload, 0, LiveV { modules: Seq::empty() }, payload.len()) {
                                None => None,
                                Some(lv) => reply_at(
                                    bytes,
                                    p3,
                                    ReplyV { live_readings: acc.live_readings.push(lv), ..acc },
                                    (fuel - 1) as nat,
                                ),
                            }
                        } else {
                            reply_at(bytes, p3, acc, (fuel - 1) as nat)
                        },
                    }
                } else {
                    None
                }
            },
        }
    }
}

fn parse_reply_fields(bytes: &[u8], pos: usize, acc: HttpReply, fuel: usize) -> (r: Option<
    HttpReply,
>)
    ensures
        match r {
            Some(v) => reply_at(bytes@, pos as int, acc@, fuel as nat) == Some(v@),
            None => reply_at(bytes@, pos as int, acc@, fuel as nat) is None,
        },
    decreases fuel,
{
    if pos == bytes.len() {
        return Some(acc);
    }
    if fuel == 0 {
        return None;
    }
    let (tag, p2) = match parse_varint(bytes, pos) {
        Some(r) => r,
        None => {
            return None;
        },
    };
    let wire = tag % 8;
    if wire == 0 {
        let (v, p3) = match parse_varint(bytes, p2) {
            Some(r) => r,
            None => {
                return None;
            },
        };
        if tag / 8 == 1 {
            let acc2 = HttpReply { reply_type: v, ..acc };
            proof {
                assert(acc2@ =~= (ReplyV { reply_type: v, ..acc@ }));
            }
            parse_reply_fields(bytes, p3, acc2, fuel - 1)
        } else {
            parse_reply_fields(bytes, p3, acc, fuel - 1)
        }
    } else if wire == 2 {
        let (payload, p3) = match parse_bytes_field(bytes, p2) {
            Some(r) => r,
            None => {
                return None;
            },
        };
        if tag / 8 == 2 {
            let flen = payload.len();
            let st_acc = StatusReply { identity: None, logs: Vec::new() };
            proof {
                assert(st_acc@ =~= (StatusV { identity: None, logs: Seq::empty() }));
            }
            let st = match parse_status(payload.as_slice(), 0, st_acc, flen) {
                Some(st) => st,
                None => {
                    return None;
                },
            };
            let acc2 = HttpReply { status: Some(st), ..acc };
            proof {
                assert(acc2@ =~= (ReplyV { status: Some(st@), ..acc@ }));
            }
            parse_reply_fields(bytes, p3, acc2, fuel - 1)
        } else if tag / 8 == 3 {
            let flen = payload.len();
            let lv_acc = LiveReadings { modules: Vec::new() };
            proof {
                assert(lv_acc@ =~= (LiveV { modules: Seq::empty() }));
            }
            let lv = match parse_live(payload.as_slice(), 0, lv_acc, flen) {
                Some(lv) => lv,
                None => {
                    return None;
                },
            };
            let ghost pre = acc@;
            let mut acc2 = acc;
            acc2.live_readings.push(lv);
            proof {
                assert(acc2@.live_readings =~= pre.live_readings.push(lv@));
                assert(acc2@ =~= (ReplyV { live_readings: pre.live_readings.push(lv@), ..pre }));
            }
            parse_reply_fields(bytes, p3, acc2, fuel - 1)
        } else {
            parse_reply_fields(bytes, p3, acc, fuel - 1)
        }
    } else {
        None
    }
}

/// What parsing a whole length-delimited reply yields: the length prefix
/// must cover the rest of the buffer exactly.
pub open spec fn http_reply_parse(data: Seq<u8>) -> Option<ReplyV> {
    match bytes_field_at(data, 0) {
        None => None,
        Some((body, p1)) => if p1 == data.len() {
            reply_at(
                body,
                0,
                ReplyV { reply_type: 0, status: None, live_readings: Seq::empty() },
                body.len(),
            )
        } else {
            None
        },
    }
}

/// Parse a length-delimited reply; mirrors `http_reply_parse`.
pub fn parse_http_reply(data: &[u8]) -> (r: Option<HttpReply>)
    ensures
        match r {
            Some(v) => http_reply_parse(data@) == Some(v@),
            None => http_reply_parse(data@) is None,
        },
{
    let (body, p1) = match parse_bytes_field(data, 0) {
        Some(r) => r,
        None => {
            return None;
        },
    };
    if p1 != data.len() {
        return None;
    }
    let flen = body.len();
    let empty = HttpReply { reply_type: 0, status: None, live_readings: Vec::new() };
    proof {
        assert(empty@ =~= (ReplyV { reply_type: 0, status: None, live_readings: Seq::empty() }));
    }
    parse_reply_fields(body.as_slice(), 0, empty, flen)
}

} // verus!

//! A request to call a procedure: a method name and an ordered argument
//! list, rendered as a `<methodCall>` document and performed through a
//! `Transport`.

use vstd::prelude::*;

use crate::bytes::clone_bytes;
use crate::encode::{encodable, encodable_elems, encode_value, push_slice};
use crate::error::Error;
use crate::escape::{escape_spec, escape_xml};
use crate::transport::Transport;
use crate::value::{elems_view, entries_view, view_of, Value, ValueView};
use vstd::string::{StrSliceExecFns, StringSliceAdditionalSpecFns};

verus! {

/// A request to call a procedure.
#[derive(Debug)]
pub struct Request {
    name: Vec<u8>,
    args: Vec<Value>,
}

/// The model of a request: the method name bytes and the argument views in
/// order.
pub ghost struct RequestView {
    pub name: Seq<u8>,
    pub args: Seq<ValueView>,
}

impl View for Request {
    type V = RequestView;

    closed spec fn view(&self) -> RequestView {
        RequestView { name: self.name@, args: elems_view(self.args@) }
    }
}

/// The bytes of `system.multicall`.
pub open spec fn multicall_name() -> Seq<u8> {
    seq![115u8, 121u8, 115u8, 116u8, 101u8, 109u8, 46u8, 109u8, 117u8, 108u8, 116u8, 105u8, 99u8, 97u8, 108u8, 108u8]
}

/// The bytes of `methodName`.
pub open spec fn method_name_key() -> Seq<u8> {
    seq![109u8, 101u8, 116u8, 104u8, 111u8, 100u8, 78u8, 97u8, 109u8, 101u8]
}

/// The bytes of `params`.
pub open spec fn params_key() -> Seq<u8> {
    seq![112u8, 97u8, 114u8, 97u8, 109u8, 115u8]
}

/// The struct `system.multicall` expects for one batched call: its method
/// name and its parameter list.
pub open spec fn multicall_struct(rv: RequestView) -> ValueView {
    ValueView::Struct(
        seq![
            (method_name_key(), ValueView::String(rv.name)),
            (params_key(), ValueView::Array(rv.args)),
        ],
    )
}

/// The document head up to the method name.
pub open spec fn req_head() -> Seq<u8> {
    seq![60u8, 63u8, 120u8, 109u8, 108u8, 32u8, 118u8, 101u8, 114u8, 115u8, 105u8, 111u8, 110u8, 61u8, 34u8, 49u8, 46u8, 48u8, 34u8, 32u8, 101u8, 110u8, 99u8, 111u8, 100u8, 105u8, 110u8, 103u8, 61u8, 34u8, 117u8, 116u8, 102u8, 45u8, 56u8, 34u8, 63u8, 62u8, 60u8, 109u8, 101u8, 116u8, 104u8, 111u8, 100u8, 67u8, 97u8, 108u8, 108u8, 62u8, 32u8, 32u8, 32u8, 32u8, 60u8, 109u8, 101u8, 116u8, 104u8, 111u8, 100u8, 78u8, 97u8, 109u8, 101u8, 62u8]
}

/// Between the method name and the parameters.
pub open spec fn req_mid() -> Seq<u8> {
    seq![60u8, 47u8, 109u8, 101u8, 116u8, 104u8, 111u8, 100u8, 78u8, 97u8, 109u8, 101u8, 62u8, 32u8, 32u8, 32u8, 32u8, 60u8, 112u8, 97u8, 114u8, 97u8, 109u8, 115u8, 62u8]
}

/// Before each parameter value.
pub open spec fn param_open() -> Seq<u8> {
    seq![32u8, 32u8, 32u8, 32u8, 32u8, 32u8, 32u8, 32u8, 60u8, 112u8, 97u8, 114u8, 97u8, 109u8, 62u8]
}

/// After each parameter value.
pub open spec fn param_close() -> Seq<u8> {
    seq![32u8, 32u8, 32u8, 32u8, 32u8, 32u8, 32u8, 32u8, 60u8, 47u8, 112u8, 97u8, 114u8, 97u8, 109u8, 62u8]
}

/// The document tail.
pub open spec fn req_tail() -> Seq<u8> {
    seq![32u8, 32u8, 32u8, 32u8, 60u8, 47u8, 112u8, 97u8, 114u8, 97u8, 109u8, 115u8, 62u8, 60u8, 47u8, 109u8, 101u8, 116u8, 104u8, 111u8, 100u8, 67u8, 97u8, 108u8, 108u8, 62u8]
}

/// The bytes written for the parameters from index `i` on.
pub open spec fn encode_params(args: Seq<ValueView>, i: int) -> Seq<u8>
    decreases args.len() - i,
{
    if 0 <= i < args.len() {
        param_open() + encode_value(args[i]) + param_close() + encode_params(args, i + 1)
    } else {
        Seq::empty()
    }
}

/// The complete `<methodCall>` document for a request: the XML
/// declaration, the escaped method name, and one `<param>` per argument in
/// order.
pub open spec fn encode_request(rv: RequestView) -> Seq<u8> {
    req_head() + escape_spec(rv.name) + req_mid() + encode_params(rv.args, 0) + req_tail()
}

impl Request {
    /// Creates a new request to call a procedure named `name`, with no
    /// arguments yet.
    pub fn new(name: &str) -> (r: Request)
        ensures
            r@.name == name.spec_bytes(),
            r@.args == Seq::<ValueView>::empty(),
    {
        let r = Request { name: name.as_bytes_vec(), args: Vec::new() };
        proof {
            assert(elems_view(r.args@) =~= Seq::<ValueView>::empty());
        }
        r
    }

    /// Appends an argument to the list the call will carry.
    pub fn arg(self, value: Value) -> (r: Request)
        ensures
            r@.name == self@.name,
            r@.args == self@.args.push(value@),
    {
        let ghost args0 = self.args@;
        let mut args = self.args;
        let ghost vv = view_of(value);
        args.push(value);
        proof {
            assert(elems_view(args@) =~= elems_view(args0).push(vv));
        }
        Request { name: self.name, args }
    }

    /// Renders this request as a complete UTF-8 XML document.
    pub fn write_as_xml(&self, out: &mut Vec<u8>)
        requires
            encodable_elems(self@.args, 0),
        ensures
            final (out)@ == old(out)@ + encode_request(self@),
    {
        let head: [u8; 66] = [60, 63, 120, 109, 108, 32, 118, 101, 114, 115, 105, 111, 110, 61, 34, 49, 46, 48, 34, 32, 101, 110, 99, 111, 100, 105, 110, 103, 61, 34, 117, 116, 102, 45, 56, 34, 63, 62, 60, 109, 101, 116, 104, 111, 100, 67, 97, 108, 108, 62, 32, 32, 32, 32, 60, 109, 101, 116, 104, 111, 100, 78, 97, 109, 101, 62];
        let mid: [u8; 25] = [60, 47, 109, 101, 116, 104, 111, 100, 78, 97, 109, 101, 62, 32, 32, 32, 32, 60, 112, 97, 114, 97, 109, 115, 62];
        let popen: [u8; 15] = [32, 32, 32, 32, 32, 32, 32, 32, 60, 112, 97, 114, 97, 109, 62];
        let pclose: [u8; 16] = [32, 32, 32, 32, 32, 32, 32, 32, 60, 47, 112, 97, 114, 97, 109, 62];
        let tail: [u8; 26] = [32, 32, 32, 32, 60, 47, 112, 97, 114, 97, 109, 115, 62, 60, 47, 109, 101, 116, 104, 111, 100, 67, 97, 108, 108, 62];
        proof {
            assert(head@ =~= req_head());
            assert(mid@ =~= req_mid());
            assert(popen@ =~= param_open());
            assert(pclose@ =~= param_close());
            assert(tail@ =~= req_tail());
        }
        push_slice(out, head.as_slice());
        let esc = escape_xml(self.name.as_slice());
        push_slice(out, esc.as_slice());
        push_slice(out, mid.as_slice());
        let ghost av = elems_view(self.args@);
        let ghost mid0 = out@;
        let mut i: usize = 0;
        proof {
            assert(mid0 + encode_params(av, 0) =~= mid0 + encode_params(av, 0));
        }
        while i < self.args.len()
            invariant
                0 <= i <= self.args@.len(),
                av == elems_view(self.args@),
                av.len() == self.args@.len(),
                av == self@.args,
                encodable_elems(self@.args, 0),
                popen@ == param_open(),
                pclose@ == param_close(),
                out@ + encode_params(av, i as int) == mid0 + encode_params(av, 0),
            decreases self.args@.len() - i,
        {
            let ghost out0 = out@;
            push_slice(out, popen.as_slice());
            proof {
                crate::encode::lemma_encodable_elem(av, 0, i as int);
                assert(av[i as int] == view_of(self.args@[i as int]));
            }
            let elem = &self.args[i];
            proof {
                assert(*elem == self.args@[i as int]);
                assert(encodable(elem@));
            }
            elem.write_as_xml(out);
            push_slice(out, pclose.as_slice());
            proof {
                assert(out@ + encode_params(av, i + 1) =~= out0 + encode_params(av, i as int));
            }
            i = i + 1;
        }
        proof {
            assert(encode_params(av, i as int) =~= Seq::<u8>::empty());
            assert(out@ =~= mid0 + encode_params(av, 0));
        }
        push_slice(out, tail.as_slice());
        proof {
            assert(final (out)@ =~= old(out)@ + encode_request(self@));
        }
    }

    /// Performs the request through a transport: renders the document,
    /// hands it over, and decodes the response. A server `<fault>` and a
    /// response that cannot be decoded both surface as an `Error`.
    pub fn call<T: Transport>(&self, transport: &mut T) -> (r: Result<Value, Error>)
        requires
            encodable_elems(self@.args, 0),
        ensures
            r matches Ok(v) ==> crate::value::wf_view(v@),
            r matches Err(e) ==> (e@ matches crate::error::ErrorView::Fault(f) ==> exists|
                vv: crate::value::ValueView,
            | crate::value::wf_view(vv) && crate::fault::fault_of_value(vv) == Some(f)),
    {
        let mut body: Vec<u8> = Vec::new();
        self.write_as_xml(&mut body);
        let resp = match transport.transmit(body.as_slice()) {
            Ok(resp) => resp,
            Err(msg) => {
                return Err(Error::from_transport(msg));
            },
        };
        match crate::parser::parse_response(resp.as_slice()) {
            Ok(Ok(v)) => Ok(v),
            Ok(Err(f)) => Err(Error::from_fault(f)),
            Err(e) => Err(Error::from_parse(e)),
        }
    }

    /// Serializes this request into the struct `system.multicall` expects:
    /// a `methodName` member and a `params` member.
    pub fn into_multicall_struct(self) -> (r: Value)
        ensures
            r@ == multicall_struct(self@),
    {
        let kc: [u8; 10] = [109, 101, 116, 104, 111, 100, 78, 97, 109, 101];
        let kp: [u8; 6] = [112, 97, 114, 97, 109, 115];
        proof {
            assert(kc@ =~= method_name_key());
            assert(kp@ =~= params_key());
        }
        let mut members: Vec<(Vec<u8>, Value)> = Vec::new();
        let ghost selfv = self@;
        members.push((clone_bytes(kc.as_slice()), Value::String(self.name)));
        members.push((clone_bytes(kp.as_slice()), Value::Array(self.args)));
        let r = Value::Struct(members);
        proof {
            assert(entries_view(members@) =~= seq![
                (method_name_key(), ValueView::String(selfv.name)),
                (params_key(), ValueView::Array(selfv.args)),
            ]);
        }
        r
    }

    /// Creates a `system.multicall` request that performs all the given
    /// requests at once: its single argument is an array with one struct
    /// per batched request, in order.
    pub fn new_multicall(requests: &Vec<Request>) -> (r: Request)
        ensures
            r@.name == multicall_name(),
            r@.args.len() == 1,
            r@.args[0] == ValueView::Array(
                Seq::new(
                    requests@.len(),
                    |i: int|
                        if 0 <= i < requests@.len() {
                            multicall_struct(requests@[i]@)
                        } else {
                            ValueView::Nil
                        },
                ),
            ),
    {
        let ghost target = Seq::new(
            requests@.len(),
            |i: int|
                if 0 <= i < requests@.len() {
                    multicall_struct(requests@[i]@)
                } else {
                    ValueView::Nil
                },
        );
        let kc: [u8; 10] = [109, 101, 116, 104, 111, 100, 78, 97, 109, 101];
        let kp: [u8; 6] = [112, 97, 114, 97, 109, 115];
        let mn: [u8; 16] = [115, 121, 115, 116, 101, 109, 46, 109, 117, 108, 116, 105, 99, 97, 108, 108];
        proof {
            assert(kc@ =~= method_name_key());
            assert(kp@ =~= params_key());
            assert(mn@ =~= multicall_name());
        }
        let mut calls: Vec<Value> = Vec::new();
        let mut i: usize = 0;
        proof {
            assert(elems_view(calls@) =~= target.take(0));
        }
        while i < requests.len()
            invariant
                0 <= i <= requests@.len(),
                calls@.len() == i,
                kc@ == method_name_key(),
                kp@ == params_key(),
                target == Seq::new(
                    requests@.len(),
                    |j: int|
                        if 0 <= j < requests@.len() {
                            multicall_struct(requests@[j]@)
                        } else {
                            ValueView::Nil
                        },
                ),
                elems_view(calls@) == target.take(i as int),
            decreases requests@.len() - i,
        {
            let req = &requests[i];
            let mut members: Vec<(Vec<u8>, Value)> = Vec::new();
            let mut args: Vec<Value> = Vec::new();
            let mut j: usize = 0;
            proof {
                assert(elems_view(args@) =~= elems_view(req.args@).take(0));
            }
            while j < req.args.len()
                invariant
                    0 <= j <= req.args@.len(),
                    args@.len() == j,
                    req == &requests[i as int],
                    elems_view(args@) == elems_view(req.args@).take(j as int),
                decreases req.args@.len() - j,
            {
                let cv = req.args[j].deep_clone();
                args.push(cv);
                proof {
                    assert(elems_view(args@) =~= elems_view(req.args@).take(j + 1));
                }
                j = j + 1;
            }
            proof {
                assert(elems_view(req.args@).take(req.args@.len() as int) =~= elems_view(
                    req.args@,
                ));
            }
            members.push((clone_bytes(kc.as_slice()), Value::String(clone_bytes(
                req.name.as_slice(),
            ))));
            members.push((clone_bytes(kp.as_slice()), Value::Array(args)));
            let call_struct = Value::Struct(members);
            proof {
                assert(entries_view(members@) =~= seq![
                    (method_name_key(), ValueView::String(req@.name)),
                    (params_key(), ValueView::Array(req@.args)),
                ]);
                assert(view_of(call_struct) == multicall_struct(requests@[i as int]@));
            }
            let ghost calls0 = calls@;
            let ghost csv = view_of(call_struct);
            calls.push(call_struct);
            proof {
                assert(elems_view(calls@) =~= elems_view(calls0).push(csv));
                assert(elems_view(calls@) =~= target.take(i + 1));
            }
            i = i + 1;
        }
        proof {
            assert(target.take(requests@.len() as int) =~= target);
        }
        let arr = Value::Array(calls);
        let ghost arrv = view_of(arr);
        let mut args: Vec<Value> = Vec::new();
        args.push(arr);
        let r = Request { name: clone_bytes(mn.as_slice()), args };
        proof {
            assert(elems_view(r.args@) =~= seq![arrv]);
        }
        r
    }
}

} // verus!

verus! {

impl Request {
    /// Decides whether every argument can be encoded; `write_as_xml` and
    /// `call` ask for exactly this.
    pub fn args_encodable(&self) -> (r: bool)
        ensures
            r == encodable_elems(self@.args, 0),
    {
        let ghost ev = elems_view(self.args@);
        let mut i: usize = 0;
        while i < self.args.len()
            invariant
                0 <= i <= self.args@.len(),
                ev == elems_view(self.args@),
                ev.len() == self.args@.len(),
                ev == self@.args,
                encodable_elems(ev, 0) == encodable_elems(ev, i as int),
            decreases self.args@.len() - i,
        {
            let elem = &self.args[i];
            proof {
                assert(*elem == self.args@[i as int]);
                assert(ev[i as int] == view_of(self.args@[i as int]));
            }
            if !elem.is_encodable() {
                proof {
                    assert(!encodable_elems(ev, i as int));
                }
                return false;
            }
            i = i + 1;
        }
        proof {
            assert(encodable_elems(ev, i as int));
        }
        true
    }
}

} // verus!

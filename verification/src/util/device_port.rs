//! One port of one device, with the port at the other end of its link.
use vstd::prelude::*;

verus! {

/// A port, known by its device and its own name. The peer is what the
/// topology says is wired to it; it takes no part in the port's identity.
#[derive(Debug)]
pub struct DevicePort {
    device_name: String,
    port_name: String,
    peer_key: Option<(String, String)>,
}

impl DevicePort {
    /// The device's name.
    pub closed spec fn device(&self) -> Seq<char> {
        self.device_name@
    }

    /// The port's name.
    pub closed spec fn port(&self) -> Seq<char> {
        self.port_name@
    }

    /// The device and port at the other end of the link, if one is recorded.
    pub closed spec fn peer(&self) -> Option<(Seq<char>, Seq<char>)> {
        match self.peer_key {
            Some(p) => Some((p.0@, p.1@)),
            None => None,
        }
    }

    /// What identifies the port: its device and port names.
    pub open spec fn key(&self) -> (Seq<char>, Seq<char>) {
        (self.device(), self.port())
    }

    pub fn new(device_name: String, port_name: String) -> (r: DevicePort)
        ensures
            r.device() == device_name@,
            r.port() == port_name@,
            r.peer().is_none(),
    {
        DevicePort { device_name, port_name, peer_key: None }
    }

    pub fn get_device_name(&self) -> (r: String)
        ensures
            r@ == self.device(),
    {
        self.device_name.clone()
    }

    pub fn get_port_name(&self) -> (r: String)
        ensures
            r@ == self.port(),
    {
        self.port_name.clone()
    }

    /// Records the port at the other end of the link.
    pub fn set_peer_key(&mut self, peer_device_name: String, peer_port_name: String)
        ensures
            final(self).device() == old(self).device(),
            final(self).port() == old(self).port(),
            final(self).peer() == Some((peer_device_name@, peer_port_name@)),
    {
        self.peer_key = Some((peer_device_name, peer_port_name));
    }

    pub fn get_peer_port(&self) -> (r: Option<&(String, String)>)
        ensures
            match r {
                Some(p) => self.peer() == Some((p.0@, p.1@)),
                None => self.peer().is_none(),
            },
    {
        self.peer_key.as_ref()
    }

    /// Whether two ports are the same port: same device, same port name.
    pub fn same_port(&self, other: &DevicePort) -> (r: bool)
        ensures
            r == (self.key() == other.key()),
    {
        self.device_name == other.device_name && self.port_name == other.port_name
    }
}

impl Clone for DevicePort {
    fn clone(&self) -> (r: Self)
        ensures
            r.device() == self.device(),
            r.port() == self.port(),
            r.peer() == self.peer(),
    {
        let peer_key = match &self.peer_key {
            Some(p) => Some((p.0.clone(), p.1.clone())),
            None => None,
        };
        DevicePort {
            device_name: self.device_name.clone(),
            port_name: self.port_name.clone(),
            peer_key,
        }
    }
}

} // verus!

use multicats::dispatch::{
    max_fragment_size, read_request, write_fragment, RequestIntake, RequestQueue,
};
use multicats::image::{compute_image_metadata, read_metadata};
use multicats::receiver::{ChunkReceiver, Reception, MAX_REQUEST_LEN};
use multicats::ImageMetadata;

struct Server {
    image: Vec<u8>,
    table: ImageMetadata,
    queue: RequestQueue,
    max_udp_payload_size: usize,
    max_fragment_size: usize,
    served: Vec<u32>,
}

impl Server {
    fn new(image: &[u8], chunk_size: u32, max_udp_payload_size: usize) -> Server {
        Server {
            image: image.to_vec(),
            table: compute_image_metadata(image, chunk_size).unwrap(),
            queue: RequestQueue::new(),
            max_udp_payload_size,
            max_fragment_size: max_fragment_size(max_udp_payload_size).unwrap(),
            served: Vec::new(),
        }
    }

    fn metadata_stream(&self) -> Vec<u8> {
        self.table.encode()
    }

    fn on_request(&mut self, datagram: &[u8]) {
        match read_request(datagram, self.table.chunks.len()) {
            RequestIntake::Forward { known, unknown } => {
                assert!(unknown.is_empty());
                for id in known {
                    self.queue.enqueue(id);
                }
            }
            other => panic!("{:?}", other),
        }
    }

    /// The datagrams of the chunk whose turn it is.
    fn serve_next(&mut self) -> Option<Vec<Vec<u8>>> {
        let id = self.queue.next()?;
        self.served.push(id);
        let meta = self.table.chunks[id as usize];
        let start = meta.offset as usize;
        let chunk = &self.image[start..start + meta.size as usize];
        let mut buf = vec![0u8; self.max_udp_payload_size];
        let mut out = Vec::new();
        let mut offset = 0u32;
        while (offset as usize) < chunk.len() {
            let (n, next) =
                write_fragment(id, chunk, offset, self.max_fragment_size, &mut buf).unwrap();
            assert!(n <= self.max_udp_payload_size);
            out.push(buf[..n].to_vec());
            offset = next;
        }
        Some(out)
    }
}

struct Client {
    receiver: ChunkReceiver,
    file: Vec<u8>,
    corrupt: usize,
}

impl Client {
    fn new(metadata_stream: &[u8]) -> Client {
        let table = read_metadata(metadata_stream).unwrap();
        let size = table.image_size() as usize;
        Client { receiver: ChunkReceiver::new(table), file: vec![0u8; size], corrupt: 0 }
    }

    fn tick(&self) -> Vec<u8> {
        let mut buf = vec![0u8; MAX_REQUEST_LEN];
        let n = self.receiver.write_request(&mut buf).unwrap();
        buf.truncate(n);
        buf
    }

    fn on_datagram(&mut self, datagram: &[u8]) {
        match self.receiver.receive(datagram) {
            Reception::Complete { offset, data, .. } => {
                let at = offset as usize;
                self.file[at..at + data.len()].copy_from_slice(&data);
            }
            Reception::Corrupt => self.corrupt += 1,
            Reception::Stored | Reception::Refused(_) => {}
            other => panic!("{:?}", other),
        }
    }
}

#[test]
fn hello_worlds_reaches_the_client_byte_for_byte() {
    let image = b"HELLO WORLDS";
    let mut server = Server::new(image, 5, 13);
    assert_eq!(server.max_fragment_size, 2);
    let mut client = Client::new(&server.metadata_stream());
    assert_eq!(client.file.len(), 12);
    server.on_request(&client.tick());
    let mut sent = 0;
    while let Some(datagrams) = server.serve_next() {
        for d in datagrams {
            sent += 1;
            client.on_datagram(&d);
        }
    }
    assert_eq!(sent, 3 + 3 + 1);
    assert_eq!(server.served, vec![1, 2, 0]);
    assert!(client.receiver.is_done());
    assert_eq!(client.file, image.to_vec());
}

#[test]
fn every_other_datagram_lost_still_completes() {
    let image = b"HELLO WORLDS";
    let mut server = Server::new(image, 5, 13);
    let mut client = Client::new(&server.metadata_stream());
    let mut counter = 0usize;
    let mut ticks = 0;
    while !client.receiver.is_done() {
        ticks += 1;
        assert!(ticks <= 4, "not complete after {} ticks", ticks - 1);
        server.on_request(&client.tick());
        while let Some(datagrams) = server.serve_next() {
            for d in datagrams {
                if counter % 2 == 0 {
                    client.on_datagram(&d);
                }
                counter += 1;
            }
        }
    }
    assert_eq!(ticks, 2);
    assert_eq!(client.file, image.to_vec());
}

#[test]
fn half_of_the_datagrams_lost_at_random_still_completes() {
    let image: Vec<u8> = (0..20_000u32).map(|i| (i.wrapping_mul(2654435761) >> 24) as u8).collect();
    let mut server = Server::new(&image, 1500, 200);
    let mut client = Client::new(&server.metadata_stream());
    // A fixed pseudo-random sequence decides which datagrams are lost.
    let mut state = 0x2545_f491_4f6c_dd1du64;
    let mut ticks = 0;
    while !client.receiver.is_done() {
        ticks += 1;
        assert!(ticks <= 200, "not complete after 200 ticks");
        server.on_request(&client.tick());
        while let Some(datagrams) = server.serve_next() {
            for d in datagrams {
                state ^= state << 13;
                state ^= state >> 7;
                state ^= state << 17;
                if state & 1 == 0 {
                    client.on_datagram(&d);
                }
            }
        }
    }
    assert_eq!(client.file, image);
    assert_eq!(client.corrupt, 0);
}

#[test]
fn chunk_corrupted_on_the_way_is_asked_for_again() {
    let image = b"HELLO WORLDS";
    let mut server = Server::new(image, 5, 13);
    let mut client = Client::new(&server.metadata_stream());
    server.on_request(&client.tick());
    let mut first = true;
    while let Some(datagrams) = server.serve_next() {
        let chunk = *server.served.last().unwrap();
        for mut d in datagrams {
            if chunk == 1 && first {
                // The last byte of the first datagram of chunk 1 is changed.
                first = false;
                let last = d.len() - 1;
                d[last] ^= 0x20;
            }
            client.on_datagram(&d);
        }
    }
    assert_eq!(client.corrupt, 1);
    assert!(!client.receiver.is_done());
    assert_eq!(client.receiver.build_request().as_slice(), &[1]);
    assert_eq!(&client.file[..5], b"HELLO");
    assert_eq!(&client.file[5..10], &[0u8; 5]);
    assert_eq!(&client.file[10..], b"DS");
    // The next tick asks for chunk 1 alone, and this time it comes through.
    let request = client.tick();
    assert_eq!(request, vec![1, 1]);
    server.on_request(&request);
    while let Some(datagrams) = server.serve_next() {
        for d in datagrams {
            client.on_datagram(&d);
        }
    }
    assert_eq!(server.served, vec![1, 2, 0, 1]);
    assert!(client.receiver.is_done());
    assert_eq!(client.file, image.to_vec());
}

#[test]
fn two_clients_are_served_from_one_queue() {
    let image: Vec<u8> = (0..64u8).collect();
    let mut server = Server::new(&image, 8, 32);
    let stream = server.metadata_stream();
    let mut a = Client::new(&stream);
    let mut b = Client::new(&stream);
    // Both ask for everything: each chunk is queued once.
    server.on_request(&a.tick());
    server.on_request(&b.tick());
    assert_eq!(server.queue.len(), 8);
    // Client a misses chunk 3, client b misses chunk 6.
    while let Some(datagrams) = server.serve_next() {
        let chunk = *server.served.last().unwrap();
        for d in datagrams {
            if chunk != 3 {
                a.on_datagram(&d);
            }
            if chunk != 6 {
                b.on_datagram(&d);
            }
        }
    }
    assert_eq!(server.served, vec![1, 2, 3, 4, 5, 6, 7, 0]);
    assert_eq!(a.tick(), vec![1, 3]);
    assert_eq!(b.tick(), vec![1, 6]);
    // The requests of both are merged; service goes on after chunk 0.
    server.on_request(&b.tick());
    server.on_request(&a.tick());
    server.on_request(&a.tick());
    assert_eq!(server.queue.len(), 2);
    while let Some(datagrams) = server.serve_next() {
        for d in datagrams {
            a.on_datagram(&d);
            b.on_datagram(&d);
        }
    }
    assert_eq!(server.served[8..], [3, 6]);
    assert!(a.receiver.is_done());
    assert!(b.receiver.is_done());
    assert_eq!(a.file, image);
    assert_eq!(b.file, image);
}

#[test]
fn fragments_in_any_order_and_twice_over_assemble_the_image() {
    let image: Vec<u8> = (0..300u32).map(|i| (i * 7 % 256) as u8).collect();
    let mut server = Server::new(&image, 100, 30);
    let mut client = Client::new(&server.metadata_stream());
    server.on_request(&client.tick());
    let mut all = Vec::new();
    while let Some(datagrams) = server.serve_next() {
        all.extend(datagrams);
    }
    // Each datagram twice, the whole in reverse order.
    let mut shuffled: Vec<Vec<u8>> = all.iter().rev().cloned().collect();
    shuffled.extend(all.iter().cloned());
    for d in shuffled.iter() {
        client.on_datagram(d);
    }
    assert!(client.receiver.is_done());
    assert_eq!(client.file, image);
    assert_eq!(client.corrupt, 0);
}

#[test]
fn no_datagram_is_longer_than_the_payload_size() {
    let image: Vec<u8> = vec![0xffu8; 70_000];
    for max in [12usize, 13, 64, 139, 140, 1472, 9000] {
        let mut server = Server::new(&image, 70_000, max);
        server.queue.enqueue(0);
        let datagrams = server.serve_next().unwrap();
        let mut total = 0;
        for d in datagrams.iter() {
            assert!(d.len() <= max);
            total += d.len();
        }
        let fragments = (70_000 + server.max_fragment_size - 1) / server.max_fragment_size;
        assert_eq!(datagrams.len(), fragments);
        assert!(total >= 70_000);
        // The first datagram is as long as the payload size allows, less the
        // 8 bytes that chunk 0 and offset 0 save, and less one byte where a
        // longer payload would need a longer length in front of it.
        assert!(datagrams[0].len() + 9 >= max);
    }
}

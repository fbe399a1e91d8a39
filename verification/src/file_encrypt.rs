//! Encrypting a file that is read and written piece by piece.
//!
//! The caller reads the chunks and writes the pieces: the head that
//! [`FileEncryptor::begin`] gives, the frame that [`FileEncryptor::seal`] gives for
//! each chunk, and the end that [`FileEncryptor::finish`] gives. One after the
//! other, they are the binary envelope of the chunks.

use vstd::prelude::*;
use vstd::slice::*;

use crate::armor;
use crate::constants::TRAILER_SENTINEL_LEN;
use crate::context::{EncryptHandshake, HandshakeView};
use crate::encrypt;
use crate::encrypt::{header_fits, sign_payload_end};
use crate::envelope;
use crate::envelope::encode_envelope_binary;
use crate::handshake;
use crate::handshake::{build_encrypt_handshake, SenderView};
use crate::keys;
use crate::keys::{unlock_secret, PublicView, SecretBundle};
use crate::recipients;
use crate::streaming;
use crate::streaming::{seal_frame, RunningDigest};
use crate::transcript::aad_for;
use crate::util::be_bytes;

verus! {

/// The encryption of a file in progress.
pub struct FileEncryptor {
    hs: EncryptHandshake,
    aad: Vec<u8>,
    digest: Option<RunningDigest>,
    keys: Option<SecretBundle>,
    index: u32,
    signer: Ghost<Option<(Seq<char>, Seq<char>)>>,
    chunks: Ghost<Seq<Seq<u8>>>,
}

/// What a file begins with: preamble and header.
pub open spec fn file_head(hs: HandshakeView, signed: bool) -> Seq<u8> {
    let header = envelope::header_bytes(
        hs.enc_ecdh,
        hs.nonce,
        hs.recipients_blob,
        None,
        hs.rc,
    );
    envelope::preamble_bytes(envelope::flags_of(true, signed), header.len() as int) + header
}

/// Whether the encryption of a file can begin: the chunk size is not zero, the
/// recipients can be read, and the header fits an envelope.
pub open spec fn can_begin(recipients_armored: Seq<char>, chunk_size: nat) -> bool {
    &&& chunk_size > 0
    &&& armor::public_list(recipients_armored) matches Some(list) && 96 + recipients::ENTRY_LEN
        * handshake::recipient_count(list) <= u32::MAX
}

/// Whether a handshake is one with the recipients of a list, for a chunked
/// payload, and its header fits an envelope.
pub open spec fn is_file_handshake(hs: HandshakeView, list: Seq<PublicView>) -> bool {
    &&& exists|sender: SenderView| handshake::is_handshake(hs, list, sender)
    &&& hs.stream_on
    &&& list.len() > 0
    &&& 96 + hs.recipients_blob.len() <= u32::MAX
}

impl FileEncryptor {
    /// The handshake with the recipients.
    pub closed spec fn handshake(self) -> HandshakeView {
        self.hs@
    }

    /// Who signs the file, if anyone does.
    pub closed spec fn signer(self) -> Option<(Seq<char>, Seq<char>)> {
        self.signer@
    }

    /// Whether the file ends with a signature.
    pub open spec fn signed(self) -> bool {
        self.signer() is Some
    }

    /// The chunks so far.
    pub closed spec fn chunks(self) -> Seq<Seq<u8>> {
        self.chunks@
    }

    /// What has been written so far.
    pub open spec fn written(self) -> Seq<u8> {
        file_head(self.handshake(), self.signed()) + streaming::frames_of(
            self.handshake(),
            self.chunks(),
        )
    }

    /// What holds between the calls.
    pub closed spec fn wf(self) -> bool {
        &&& self.hs@.stream_on
        &&& self.aad@ == streaming::handshake_aad(self.hs@)
        &&& self.index == self.chunks@.len()
        &&& streaming::chunks_open(self.hs@, self.chunks@)
        &&& streaming::chunks_fit(self.chunks@)
        &&& self.digest is Some == self.signer@ is Some
        &&& self.digest matches Some(d) ==> d@ == streaming::frames_of(self.hs@, self.chunks@)
        &&& match (self.keys, self.signer@) {
            (Some(k), Some((arm, pass))) => {
                &&& keys::unlocked(arm, pass) == Some(k@)
                &&& keys::valid_secret(k@)
            },
            (None, None) => true,
            _ => false,
        }
    }

    /// Begins a file for the recipients of an armored list, to be signed by the
    /// signer, if there is one. Gives what the file begins with. All keys are
    /// validated first: fails exactly when the chunk size is zero, the recipients
    /// cannot be read or are too many, or the signer's secret does not unlock.
    pub fn begin(recipients_armored: &str, signer: Option<(&str, &str)>, chunk_size: usize) -> (r:
        Result<(FileEncryptor, Vec<u8>), ()>)
        ensures
            r is Ok <==> can_begin(recipients_armored@, chunk_size as nat)
                && encrypt::signer_ready(encrypt::signer_view(signer)),
            r matches Ok(p) ==> {
                &&& p.0.wf()
                &&& p.0.signer() == encrypt::signer_view(signer)
                &&& p.0.chunks() == Seq::<Seq<u8>>::empty()
                &&& p.1@ == file_head(p.0.handshake(), signer is Some)
                &&& p.1@ == p.0.written()
                &&& is_file_handshake(
                    p.0.handshake(),
                    armor::public_list(recipients_armored@)->0,
                )
            },
    {
        if chunk_size == 0 {
            return Err(());
        }
        let keys: Option<SecretBundle> = match signer {
            Some((arm, pass)) => match unlock_secret(arm, pass) {
                Ok(k) => Some(k),
                Err(_) => {
                    return Err(());
                },
            },
            None => None,
        };
        let hs: EncryptHandshake = match build_encrypt_handshake(recipients_armored, true) {
            Ok(h) => h,
            Err(_) => {
                return Err(());
            },
        };
        if !header_fits(hs.recipients_blob.len(), 0) {
            return Err(());
        }
        let signed: bool = signer.is_some();
        let flags: u8 = if signed {
            3
        } else {
            1
        };
        let head: Vec<u8> = encode_envelope_binary(
            hs.enc_ecdh,
            hs.nonce,
            slice_to_vec(hs.recipients_blob.as_slice()),
            Vec::new(),
            None,
            flags,
            hs.rc,
        );
        let aad: Vec<u8> = aad_for(
            &hs.enc_ecdh,
            &hs.nonce,
            hs.recipients_blob.as_slice(),
            true,
        );
        let digest: Option<RunningDigest> = if signed {
            Some(RunningDigest::new())
        } else {
            None
        };
        let ghost chunks: Seq<Seq<u8>> = seq![];
        let e: FileEncryptor = FileEncryptor {
            hs,
            aad,
            digest,
            keys,
            index: 0,
            signer: Ghost(encrypt::signer_view(signer)),
            chunks: Ghost(chunks),
        };
        proof {
            assert(streaming::frames_of(e.hs@, chunks) =~= Seq::<u8>::empty());
            assert(head@ =~= file_head(e.hs@, signed));
            assert(head@ =~= e.written());
        }
        Ok((e, head))
    }

    /// Encrypts the next chunk. Fails exactly when it does not fit a frame, or as
    /// many chunks as a 32-bit index can count are there already.
    pub fn seal(&mut self, chunk: &[u8]) -> (frame: Result<Vec<u8>, ()>)
        requires
            old(self).wf(),
        ensures
            final(self).wf(),
            final(self).handshake() == old(self).handshake(),
            final(self).signer() == old(self).signer(),
            frame is Ok <==> streaming::chunk_fits(chunk@) && old(self).chunks().len() < u32::MAX,
            frame matches Ok(f) ==> {
                &&& f@ == streaming::chunk_frame(
                    old(self).handshake(),
                    old(self).chunks().len() as int,
                    chunk@,
                )
                &&& final(self).chunks() == old(self).chunks().push(chunk@)
                &&& final(self).written() == old(self).written() + f@
            },
            frame is Err ==> final(self).chunks() == old(self).chunks(),
    {
        if self.index == u32::MAX {
            return Err(());
        }
        let frame: Vec<u8> = match seal_frame(&self.hs, self.aad.as_slice(), self.index, chunk) {
            Ok(f) => f,
            Err(_) => {
                return Err(());
            },
        };
        let ghost before = self.chunks@;
        let ghost next = before.push(chunk@);
        proof {
            assert(next.drop_last() =~= before);
            assert(streaming::frames_of(self.hs@, next) == streaming::frames_of(self.hs@, before)
                + frame@);
        }
        match self.digest.take() {
            Some(d) => {
                let mut d: RunningDigest = d;
                d.update(frame.as_slice());
                self.digest = Some(d);
            },
            None => {},
        }
        self.index = self.index + 1;
        self.chunks = Ghost(next);
        assert(self.written() =~= old(self).written() + frame@);
        Ok(frame)
    }

    /// Ends the file, with a signature if there is a signer. What has been written
    /// is then the binary envelope of the chunks.
    pub fn finish(self) -> (end: Vec<u8>)
        requires
            self.wf(),
        ensures
            encrypt::is_sealed_stream(
                self.written() + end@,
                self.handshake(),
                self.chunks(),
                self.signer(),
            ),
            streaming::chunks_fit(self.chunks()),
    {
        let ghost hs = self.hs@;
        let ghost chunks = self.chunks@;
        let ghost written = self.written();
        let ghost signer = self.signer@;
        let ghost frames = streaming::frames_of(hs, chunks);
        match (self.digest, &self.keys) {
            (Some(d), Some(keys)) => {
                let digest: [u8; 32] = d.finalize();
                let end: Vec<u8> = sign_payload_end(&self.hs, keys, &digest);
                proof {
                    let e = end@;
                    let sig = choose|sig: Seq<u8>|
                        encrypt::signed_end(e, hs, keys@, digest@, sig);
                    lemma_file_sealed(hs, chunks, signer, Some(sig));
                    assert(encrypt::stream_payload(hs, chunks, Some(sig)) =~= frames + e);
                    assert(written + e =~= file_head(hs, true) + (frames + e));
                }
                end
            },
            _ => {
                let end: Vec<u8> = slice_to_vec(be_bytes(TRAILER_SENTINEL_LEN).as_slice());
                proof {
                    lemma_file_sealed(hs, chunks, signer, None);
                    assert(written + end@ =~= file_head(hs, false) + (frames + end@));
                }
                end
            },
        }
    }
}

/// A file that was written to its end is encrypted for its recipients, exactly as
/// a message of the same chunks in memory.
pub proof fn lemma_file_encrypted(
    bytes: Seq<u8>,
    hs: HandshakeView,
    chunks: Seq<Seq<u8>>,
    list: Seq<PublicView>,
    signer: Option<(Seq<char>, Seq<char>)>,
)
    requires
        is_file_handshake(hs, list),
        encrypt::is_sealed_stream(bytes, hs, chunks, signer),
        streaming::chunks_fit(chunks),
    ensures
        encrypt::is_encrypted_stream(bytes, chunks, list, signer),
{
    encrypt::lemma_encrypts_stream(bytes, chunks, list, signer, hs);
}

/// Head and payload of a file are the binary envelope of its chunks.
proof fn lemma_file_sealed(
    hs: HandshakeView,
    chunks: Seq<Seq<u8>>,
    signer: Option<(Seq<char>, Seq<char>)>,
    sig: Option<Seq<u8>>,
)
    requires
        streaming::chunks_open(hs, chunks),
        encrypt::signed_by(sig, signer, encrypt::stream_transcript(hs, chunks)),
    ensures
        encrypt::is_sealed_stream(
            file_head(hs, sig is Some) + encrypt::stream_payload(hs, chunks, sig),
            hs,
            chunks,
            signer,
        ),
{
    let bytes = file_head(hs, sig is Some) + encrypt::stream_payload(hs, chunks, sig);
    assert(bytes =~= envelope::envelope_bytes(encrypt::stream_envelope(hs, chunks, sig)));
    assert(encrypt::sealed_stream(bytes, hs, chunks, signer, sig));
}

} // verus!

# librespot (verified core)

The logic of a Spotify client library, written in Verus and proved against its contracts:

- `protocol`: the messages of Mercury, Spirc, the metadata service and the kinds of login, with
  their protocol-buffer encodings. Every message has a model; writing a message gives its
  encoding, parsing gives back the model that the bytes encode (merging into a message that
  has fields set too, keeping on an error what was merged before it), and reading back the
  encoding of a message gives the message again.
- `wire`: the protocol-buffer wire format (varints, tags, length-delimited values, fields of
  unknown numbers) that the messages are made of.
- `authentication`: credentials, the encrypted blob that a Spotify Connect controller sends,
  the stored form of credentials, discovery's request parameters, key exchange and blob
  decryption, and the local server of the Facebook login.
- `audio_key`, `audio_file`, `audio_file2`, `audio_decrypt`, `album_cover`: asking for and
  settling audio keys, downloading a file chunk by chunk, decrypting it, asking for covers.
- `apresolve`, `audio_backend`, `config`: choosing the access point, the audio backend and the
  output device, and reading the key server's settings; `totp`: the key server's one-time code
  (through `totp-lite`).
- `crypt`, `endian`: the digests, ciphers and encodings of `rust-crypto` and `rustc-serialize`,
  and the big-endian integers of `byteorder`, behind contracts.

`app/` is the command-line front: files, the clock, standard input and output, and JSON.
